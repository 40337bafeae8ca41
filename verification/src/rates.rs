//! Hourly rates: the per-service rates of the rates file, the rate of each
//! client, and changes to the rates of a client.
//!
//! A rate is carried as the bit pattern of the `f64` that the rates file
//! holds (`f64::to_bits`); nothing here reads it as a number.

use vstd::prelude::*;

verus! {

/// A list of (name, rate) pairs read as a map: a later pair of a name
/// replaces an earlier one.
pub open spec fn pairs_map<V>(pairs: Seq<(String, V)>) -> Map<Seq<char>, V>
    decreases pairs.len(),
{
    if pairs.len() == 0 {
        Map::empty()
    } else {
        pairs_map(pairs.drop_last()).insert(pairs.last().0@, pairs.last().1)
    }
}

/// No name occurs twice in the list.
pub open spec fn distinct_names<V>(pairs: Seq<(String, V)>) -> bool {
    forall|i: int, j: int| 0 <= i < j < pairs.len() ==> #[trigger] pairs[i].0@ != #[trigger] pairs[j].0@
}

/// A pair added last replaces any earlier rate of its name.
pub proof fn lemma_pairs_map_push<V>(pairs: Seq<(String, V)>, x: (String, V))
    ensures
        pairs_map(pairs.push(x)) == pairs_map(pairs).insert(x.0@, x.1),
{
    assert(pairs.push(x).drop_last() =~= pairs);
}

/// The rate of `name` in a list of pairs, the last pair of the name counting.
pub fn lookup_pairs(pairs: &Vec<(String, u64)>, name: &String) -> (r: Option<u64>)
    ensures
        r == (if pairs_map(pairs@).contains_key(name@) {
            Some(pairs_map(pairs@)[name@])
        } else {
            None::<u64>
        }),
{
    let mut k = pairs.len();
    assert(pairs@.take(k as int) =~= pairs@);
    while k > 0
        invariant
            k <= pairs@.len(),
            pairs_map(pairs@).contains_key(name@) == pairs_map(pairs@.take(k as int)).contains_key(
                name@,
            ),
            pairs_map(pairs@)[name@] == pairs_map(pairs@.take(k as int))[name@],
        decreases k,
    {
        assert(pairs@.take(k as int).drop_last() =~= pairs@.take(k - 1));
        if pairs[k - 1].0 == *name {
            return Some(pairs[k - 1].1);
        }
        k = k - 1;
    }
    None
}

/// The list without the pairs of `name`.
pub fn without_name<V>(pairs: Vec<(String, V)>, name: &String) -> (r: Vec<(String, V)>)
    ensures
        pairs_map(r@) == pairs_map(pairs@).remove(name@),
        forall|i: int| 0 <= i < r@.len() ==> #[trigger] r@[i].0@ != name@,
        distinct_names(pairs@) ==> distinct_names(r@),
        forall|i: int| 0 <= i < r@.len() ==> pairs@.contains(#[trigger] r@[i]),
{
    let ghost all = pairs@;
    let mut rest = pairs;
    assert(all.len() == rest.len());
    let mut out: Vec<(String, V)> = Vec::new();
    let mut taken: usize = 0;
    assert(all.take(0) =~= Seq::<(String, V)>::empty());
    assert(pairs_map(all.take(0)).remove(name@) =~= Map::<Seq<char>, V>::empty());
    while rest.len() > 0
        invariant
            all.len() == taken + rest@.len(),
            all.len() <= usize::MAX,
            rest@ == all.skip(taken as int),
            pairs_map(out@) == pairs_map(all.take(taken as int)).remove(name@),
            forall|i: int| 0 <= i < out@.len() ==> #[trigger] out@[i].0@ != name@,
            forall|i: int| 0 <= i < out@.len() ==> all.take(taken as int).contains(#[trigger] out@[i]),
            distinct_names(all) ==> distinct_names(out@),
        decreases rest.len(),
    {
        let x = rest.remove(0);
        assert(x == all[taken as int]);
        let ghost prev = all.take(taken as int);
        assert(all.take(taken + 1) =~= prev.push(x));
        proof {
            lemma_pairs_map_push(prev, x);
        }
        let ghost out_before = out@;
        if x.0 == *name {
            assert(pairs_map(prev).insert(x.0@, x.1).remove(name@) =~= pairs_map(prev).remove(name@));
        } else {
            out.push(x);
            proof {
                lemma_pairs_map_push(out_before, x);
                assert(pairs_map(prev).insert(x.0@, x.1).remove(name@) =~= pairs_map(prev).remove(
                    name@,
                ).insert(x.0@, x.1));
            }
        }
        taken = taken + 1;
        assert(rest@ =~= all.skip(taken as int));
        assert forall|i: int| 0 <= i < out@.len() implies all.take(taken as int).contains(#[trigger] out@[i]) by {
            if i < out_before.len() {
                let w = choose|w: int| 0 <= w < prev.len() && prev[w] == out_before[i];
                assert(all.take(taken as int)[w] == out@[i]);
            } else {
                assert(all.take(taken as int)[taken - 1] == out@[i]);
            }
        }
        proof {
            if distinct_names(all) {
                assert forall|i: int, j: int| 0 <= i < j < out@.len() implies #[trigger] out@[i].0@
                    != #[trigger] out@[j].0@ by {
                    if j == out_before.len() && out@.len() > out_before.len() {
                        let w = choose|w: int| 0 <= w < prev.len() && prev[w] == out_before[i];
                        assert(all[w] == out@[i]);
                        assert(all[taken - 1] == out@[j]);
                    }
                }
            }
        }
    }
    assert(all.take(taken as int) =~= all);
    out
}

/// The list with `name` given `rate`: its earlier pairs left out, the new
/// pair last.
pub fn with_rate<V>(pairs: Vec<(String, V)>, name: String, rate: V) -> (r: Vec<(String, V)>)
    ensures
        pairs_map(r@) == pairs_map(pairs@).insert(name@, rate),
        distinct_names(pairs@) ==> distinct_names(r@),
{
    let ghost key = name@;
    let mut out = without_name(pairs, &name);
    let ghost before = out@;
    out.push((name, rate));
    proof {
        lemma_pairs_map_push(before, (name, rate));
        assert(pairs_map(pairs@).remove(key).insert(key, rate) =~= pairs_map(pairs@).insert(key, rate));
    }
    out
}

/// A service of the rates file and the hourly rate of each of its clients.
#[derive(Clone, Debug)]
pub struct ServiceCost {
    pub name: String,
    pub per_person_hourly: Option<Vec<(String, u64)>>,
}

/// The rates file: its services, when it lists any.
#[derive(Clone, Debug)]
pub struct RatesConfig {
    pub service_costs: Option<Vec<ServiceCost>>,
}

/// What a service holds: its name and, when it has them, its rates by client.
pub struct ServiceCostView {
    pub name: Seq<char>,
    pub rates: Option<Map<Seq<char>, u64>>,
}

impl View for ServiceCost {
    type V = ServiceCostView;

    open spec fn view(&self) -> ServiceCostView {
        ServiceCostView {
            name: self.name@,
            rates: match self.per_person_hourly {
                Some(p) => Some(pairs_map(p@)),
                None => None,
            },
        }
    }
}

/// The services of a rates file; none when it lists none.
pub open spec fn services_of(config: RatesConfig) -> Seq<ServiceCostView> {
    match config.service_costs {
        Some(v) => v@.map_values(|c: ServiceCost| c@),
        None => Seq::empty(),
    }
}

/// The rates by service: the clients' rates of each service that has them,
/// a later service of a name replacing an earlier one.
pub open spec fn rates_by_service(services: Seq<ServiceCostView>) -> Map<Seq<char>, Map<Seq<char>, u64>>
    decreases services.len(),
{
    if services.len() == 0 {
        Map::empty()
    } else {
        let before = rates_by_service(services.drop_last());
        match services.last().rates {
            Some(m) => before.insert(services.last().name, m),
            None => before,
        }
    }
}

/// The rate of each client over all services, a later service's rate of a
/// client replacing an earlier one.
pub open spec fn client_rates(services: Seq<ServiceCostView>) -> Map<Seq<char>, u64>
    decreases services.len(),
{
    if services.len() == 0 {
        Map::empty()
    } else {
        let before = client_rates(services.drop_last());
        match services.last().rates {
            Some(m) => before.union_prefer_right(m),
            None => before,
        }
    }
}

/// A map from names to lists of pairs, read as a map of maps.
pub open spec fn nested_map(entries: Seq<(String, Vec<(String, u64)>)>) -> Map<Seq<char>, Map<Seq<char>, u64>> {
    pairs_map(entries).map_values(|v: Vec<(String, u64)>| pairs_map(v@))
}

fn copy_pairs(pairs: &Vec<(String, u64)>) -> (r: Vec<(String, u64)>)
    ensures
        r@ == pairs@,
{
    let mut out: Vec<(String, u64)> = Vec::new();
    for i in 0..pairs.len()
        invariant
            out@ == pairs@.take(i as int),
    {
        let name = pairs[i].0.clone();
        out.push((name, pairs[i].1));
        assert(out@ =~= pairs@.take(i + 1));
    }
    assert(pairs@.take(pairs@.len() as int) =~= pairs@);
    out
}

proof fn lemma_services_step(v: Seq<ServiceCost>, i: int)
    requires
        0 <= i < v.len(),
    ensures
        v.take(i + 1).map_values(|c: ServiceCost| c@).drop_last() == v.take(i).map_values(
            |c: ServiceCost| c@,
        ),
        v.take(i + 1).map_values(|c: ServiceCost| c@).last() == v[i]@,
        v.take(i + 1).map_values(|c: ServiceCost| c@).len() == i + 1,
{
    assert(v.take(i + 1).map_values(|c: ServiceCost| c@).drop_last() =~= v.take(i).map_values(
        |c: ServiceCost| c@,
    ));
}

/// The rates of each service's clients, by service name; see
/// `rates_by_service`.
pub fn build_cost_lookup(config: &RatesConfig) -> (r: Vec<(String, Vec<(String, u64)>)>)
    ensures
        nested_map(r@) == rates_by_service(services_of(*config)),
{
    let mut lookup: Vec<(String, Vec<(String, u64)>)> = Vec::new();
    if let Some(service_costs) = &config.service_costs {
        let n = service_costs.len();
        assert(nested_map(lookup@) =~= Map::<Seq<char>, Map<Seq<char>, u64>>::empty());
        for i in 0..n
            invariant
                n == service_costs@.len(),
                nested_map(lookup@) == rates_by_service(
                    service_costs@.take(i as int).map_values(|c: ServiceCost| c@),
                ),
        {
            proof {
                lemma_services_step(service_costs@, i as int);
            }
            let entry = &service_costs[i];
            if let Some(per_person) = &entry.per_person_hourly {
                let normalized = copy_pairs(per_person);
                let ghost before = lookup@;
                lookup = with_rate(lookup, entry.name.clone(), normalized);
                assert(nested_map(lookup@) =~= nested_map(before).insert(
                    entry.name@,
                    pairs_map(per_person@),
                ));
            }
        }
        assert(service_costs@.take(n as int) =~= service_costs@);
    } else {
        assert(nested_map(lookup@) =~= Map::<Seq<char>, Map<Seq<char>, u64>>::empty());
    }
    lookup
}

proof fn lemma_union_push(m: Map<Seq<char>, u64>, pairs: Seq<(String, u64)>, x: (String, u64))
    ensures
        m.union_prefer_right(pairs_map(pairs.push(x))) == m.union_prefer_right(pairs_map(pairs)).insert(
            x.0@,
            x.1,
        ),
{
    lemma_pairs_map_push(pairs, x);
    assert(m.union_prefer_right(pairs_map(pairs.push(x))) =~= m.union_prefer_right(
        pairs_map(pairs),
    ).insert(x.0@, x.1));
}

/// The rate of each client over all services, names not repeated; see
/// `client_rates`.
pub fn client_cost_lookup(config: &RatesConfig) -> (r: Vec<(String, u64)>)
    ensures
        pairs_map(r@) == client_rates(services_of(*config)),
        distinct_names(r@),
{
    let mut lookup: Vec<(String, u64)> = Vec::new();
    assert(pairs_map(lookup@) =~= Map::<Seq<char>, u64>::empty());
    if let Some(service_costs) = &config.service_costs {
        let n = service_costs.len();
        for i in 0..n
            invariant
                n == service_costs@.len(),
                distinct_names(lookup@),
                pairs_map(lookup@) == client_rates(
                    service_costs@.take(i as int).map_values(|c: ServiceCost| c@),
                ),
        {
            proof {
                lemma_services_step(service_costs@, i as int);
            }
            if let Some(per_person) = &service_costs[i].per_person_hourly {
                let ghost before = pairs_map(lookup@);
                let m = per_person.len();
                assert(before.union_prefer_right(pairs_map(per_person@.take(0))) =~= before);
                for k in 0..m
                    invariant
                        m == per_person@.len(),
                        distinct_names(lookup@),
                        pairs_map(lookup@) == before.union_prefer_right(
                            pairs_map(per_person@.take(k as int)),
                        ),
                {
                    proof {
                        assert(per_person@.take(k + 1) =~= per_person@.take(k as int).push(
                            per_person@[k as int],
                        ));
                        lemma_union_push(before, per_person@.take(k as int), per_person@[k as int]);
                    }
                    let name = per_person[k].0.clone();
                    lookup = with_rate(lookup, name, per_person[k].1);
                }
                assert(per_person@.take(m as int) =~= per_person@);
            }
        }
        assert(service_costs@.take(n as int) =~= service_costs@);
    }
    lookup
}

/// The service holds a rate for `student`.
pub open spec fn rated(sv: ServiceCostView, student: Seq<char>) -> bool {
    sv.rates matches Some(m) && m.contains_key(student)
}

/// The service with `student` at `rate`.
pub open spec fn with_student(sv: ServiceCostView, student: Seq<char>, rate: u64) -> ServiceCostView {
    ServiceCostView {
        name: sv.name,
        rates: Some(
            match sv.rates {
                Some(m) => m.insert(student, rate),
                None => Map::empty().insert(student, rate),
            },
        ),
    }
}

/// The service without a rate for `student`.
pub open spec fn without_student(sv: ServiceCostView, student: Seq<char>) -> ServiceCostView {
    ServiceCostView {
        name: sv.name,
        rates: match sv.rates {
            Some(m) => Some(m.remove(student)),
            None => None,
        },
    }
}

/// The name of the service that a first rate goes to when there is none.
pub open spec fn default_service_name() -> Seq<char> {
    seq!['D', 'e', 'f', 'a', 'u', 'l', 't']
}

/// The services after `student` is given `rate`.
///
/// With a service named, every service of that name gets the rate; a new
/// service of that name is added when there is none. Without one, every
/// service that already has a rate for the student gets the new rate; when
/// none has, the first service gets it, and a `Default` service is made
/// when there is no service at all.
pub open spec fn student_rate_set(
    svs: Seq<ServiceCostView>,
    student: Seq<char>,
    rate: u64,
    service: Option<Seq<char>>,
) -> Seq<ServiceCostView> {
    match service {
        Some(name) => if exists|i: int| 0 <= i < svs.len() && #[trigger] svs[i].name == name {
            svs.map_values(
                |sv: ServiceCostView|
                    if sv.name == name {
                        with_student(sv, student, rate)
                    } else {
                        sv
                    },
            )
        } else {
            svs.push(ServiceCostView { name, rates: Some(Map::empty().insert(student, rate)) })
        },
        None => if exists|i: int| 0 <= i < svs.len() && rated(#[trigger] svs[i], student) {
            svs.map_values(
                |sv: ServiceCostView|
                    if rated(sv, student) {
                        with_student(sv, student, rate)
                    } else {
                        sv
                    },
            )
        } else if svs.len() > 0 {
            svs.update(0, with_student(svs[0], student, rate))
        } else {
            seq![
                ServiceCostView {
                    name: default_service_name(),
                    rates: Some(Map::empty().insert(student, rate)),
                },
            ]
        },
    }
}

/// A service as a rate change leaves it: changed when it has the name (or,
/// without a name, when it has a rate for the student).
pub open spec fn set_target(sv: ServiceCostView, by_name: bool, name: Seq<char>, student: Seq<char>, rate: u64) -> ServiceCostView {
    if (by_name && sv.name == name) || (!by_name && rated(sv, student)) {
        with_student(sv, student, rate)
    } else {
        sv
    }
}

/// Whether some service holds a rate for `student`.
fn any_rated(services: &Vec<ServiceCost>, student: &String) -> (r: bool)
    ensures
        r == exists|i: int| 0 <= i < services@.len() && rated(#[trigger] services@[i]@, student@),
{
    for i in 0..services.len()
        invariant
            forall|k: int| 0 <= k < i ==> !rated(#[trigger] services@[k]@, student@),
    {
        if let Some(p) = &services[i].per_person_hourly {
            if lookup_pairs(p, student).is_some() {
                assert(rated(services@[i as int]@, student@));
                return true;
            }
        }
    }
    false
}

/// Whether some service has the name `name`.
fn any_named(services: &Vec<ServiceCost>, name: &String) -> (r: bool)
    ensures
        r == exists|i: int| 0 <= i < services@.len() && #[trigger] services@[i]@.name == name@,
{
    for i in 0..services.len()
        invariant
            forall|k: int| 0 <= k < i ==> #[trigger] services@[k]@.name != name@,
    {
        if services[i].name == *name {
            assert(services@[i as int]@.name == name@);
            return true;
        }
    }
    false
}

/// The service with `student` at `rate`.
fn set_in_service(c: ServiceCost, student: String, rate: u64) -> (r: ServiceCost)
    ensures
        r@ == with_student(c@, student@, rate),
{
    let pairs = match c.per_person_hourly {
        Some(p) => p,
        None => Vec::new(),
    };
    let ghost before = pairs@;
    let updated = with_rate(pairs, student, rate);
    proof {
        if c.per_person_hourly is None {
            assert(pairs_map(before) =~= Map::<Seq<char>, u64>::empty());
        }
    }
    ServiceCost { name: c.name, per_person_hourly: Some(updated) }
}

/// Gives `student` the hourly rate `rate`; see `student_rate_set`.
pub fn set_student_rate(config: RatesConfig, student: String, rate: u64, service: Option<String>) -> (r: RatesConfig)
    ensures
        r.service_costs is Some,
        services_of(r) == student_rate_set(
            services_of(config),
            student@,
            rate,
            match service {
                Some(s) => Some(s@),
                None => None,
            },
        ),
{
    let services = match config.service_costs {
        Some(v) => v,
        None => Vec::new(),
    };
    let ghost svs = services@.map_values(|c: ServiceCost| c@);
    assert(svs == services_of(config));
    let (by_name, name) = match &service {
        Some(n) => (true, n.clone()),
        None => (false, String::new()),
    };
    let hit = if by_name {
        any_named(&services, &name)
    } else {
        any_rated(&services, &student)
    };
    if !hit {
        if by_name {
            let mut services = services;
            let mut first: Vec<(String, u64)> = Vec::new();
            first.push((student, rate));
            proof {
                lemma_pairs_map_push(Seq::<(String, u64)>::empty(), first@[0]);
                assert(Seq::<(String, u64)>::empty().push(first@[0]) =~= first@);
            }
            services.push(ServiceCost { name, per_person_hourly: Some(first) });
            assert(services@.map_values(|c: ServiceCost| c@) =~= svs.push(services@.last()@));
            return RatesConfig { service_costs: Some(services) };
        }
        if services.len() > 0 {
            let mut services = services;
            let c = services.remove(0);
            let c2 = set_in_service(c, student, rate);
            services.insert(0, c2);
            assert(services@.map_values(|c: ServiceCost| c@) =~= svs.update(0, with_student(svs[0], student@, rate)));
            return RatesConfig { service_costs: Some(services) };
        }
        let mut first: Vec<(String, u64)> = Vec::new();
        first.push((student, rate));
        proof {
            lemma_pairs_map_push(Seq::<(String, u64)>::empty(), first@[0]);
            assert(Seq::<(String, u64)>::empty().push(first@[0]) =~= first@);
        }
        let default_name = "Default".to_string();
        proof {
            reveal_strlit("Default");
        }
        assert(default_name@ =~= default_service_name());
        let mut out: Vec<ServiceCost> = Vec::new();
        out.push(ServiceCost { name: default_name, per_person_hourly: Some(first) });
        assert(out@.map_values(|c: ServiceCost| c@) =~= seq![
            ServiceCostView {
                name: default_service_name(),
                rates: Some(Map::empty().insert(student@, rate)),
            },
        ]);
        return RatesConfig { service_costs: Some(out) };
    }
    let ghost f = |sv: ServiceCostView| set_target(sv, by_name, name@, student@, rate);
    let ghost all = services@;
    let mut rest = services;
    assert(all.len() == rest.len());
    let mut out: Vec<ServiceCost> = Vec::new();
    let mut taken: usize = 0;
    while rest.len() > 0
        invariant
            all.len() == taken + rest@.len(),
            all.len() <= usize::MAX,
            rest@ == all.skip(taken as int),
            out@.len() == taken,
            forall|k: int| 0 <= k < taken ==> #[trigger] out@[k]@ == set_target(all[k]@, by_name, name@, student@, rate),
        decreases rest.len(),
    {
        let c = rest.remove(0);
        assert(c == all[taken as int]);
        let change = if by_name {
            c.name == name
        } else {
            match &c.per_person_hourly {
                Some(p) => lookup_pairs(p, &student).is_some(),
                None => false,
            }
        };
        let ghost cv = c@;
        assert(change == ((by_name && cv.name == name@) || (!by_name && rated(cv, student@))));
        if change {
            let s2 = student.clone();
            let c2 = set_in_service(c, s2, rate);
            assert(c2@ == set_target(cv, by_name, name@, student@, rate));
            out.push(c2);
        } else {
            assert(c@ == set_target(cv, by_name, name@, student@, rate));
            out.push(c);
        }
        taken = taken + 1;
        assert(rest@ =~= all.skip(taken as int));
    }
    proof {
        let target = student_rate_set(
            svs,
            student@,
            rate,
            match service {
                Some(s) => Some(s@),
                None => None,
            },
        );
        if by_name {
            let w = choose|i: int| 0 <= i < services@.len() && #[trigger] services@[i]@.name == name@;
            assert(svs[w].name == name@);
        } else {
            let w = choose|i: int| 0 <= i < services@.len() && rated(#[trigger] services@[i]@, student@);
            assert(rated(svs[w], student@));
        }
        assert(target =~= svs.map_values(f));
        assert(out@.map_values(|c: ServiceCost| c@) =~= svs.map_values(f));
    }
    RatesConfig { service_costs: Some(out) }
}

/// Why a change of the rates is refused.
#[derive(Clone, Copy, Debug, PartialEq, Eq, Structural)]
pub enum RatesError {
    StudentNotFound,
}

/// Takes away the rates of `student` from every service; refused, with
/// nothing changed, when no service has a rate for the student.
pub fn remove_student_rate(config: RatesConfig, student: &String) -> (r: Result<RatesConfig, RatesError>)
    ensures
        r is Ok <==> exists|i: int|
            0 <= i < services_of(config).len() && rated(#[trigger] services_of(config)[i], student@),
        r matches Err(e) ==> e == RatesError::StudentNotFound,
        r matches Ok(c) ==> services_of(c) == services_of(config).map_values(
            |sv: ServiceCostView| without_student(sv, student@),
        ) && c.service_costs is Some,
{
    match config.service_costs {
        None => {
            assert(services_of(config) =~= Seq::<ServiceCostView>::empty());
            assert(!exists|i: int|
                0 <= i < services_of(config).len() && rated(#[trigger] services_of(config)[i], student@));
            Err(RatesError::StudentNotFound)
        },
        Some(services) => {
            let found = any_rated(&services, student);
            if !found {
                proof {
                    let sv = services_of(config);
                    assert(sv == services@.map_values(|c: ServiceCost| c@));
                    assert forall|i: int| 0 <= i < sv.len() implies !rated(#[trigger] sv[i], student@) by {
                        assert(sv[i] == services@[i]@);
                    }
                }
                return Err(RatesError::StudentNotFound);
            }
            proof {
                let sv = services_of(config);
                assert(sv == services@.map_values(|c: ServiceCost| c@));
                let w = choose|i: int| 0 <= i < services@.len() && rated(#[trigger] services@[i]@, student@);
                assert(rated(sv[w], student@));
            }
            let ghost all = services@;
            let mut rest = services;
            assert(all.len() == rest.len());
            let mut out: Vec<ServiceCost> = Vec::new();
            let mut taken: usize = 0;
            while rest.len() > 0
                invariant
                    all.len() == taken + rest@.len(),
                    all.len() <= usize::MAX,
                    rest@ == all.skip(taken as int),
                    out@.len() == taken,
                    forall|k: int| 0 <= k < taken ==> #[trigger] out@[k]@ == without_student(all[k]@, student@),
                decreases rest.len(),
            {
                let c = rest.remove(0);
                assert(c == all[taken as int]);
                let c2 = match c.per_person_hourly {
                    Some(p) => ServiceCost { name: c.name, per_person_hourly: Some(without_name(p, student)) },
                    None => ServiceCost { name: c.name, per_person_hourly: None },
                };
                out.push(c2);
                taken = taken + 1;
                assert(rest@ =~= all.skip(taken as int));
            }
            assert(out@.map_values(|c: ServiceCost| c@) =~= all.map_values(|c: ServiceCost| c@).map_values(
                |sv: ServiceCostView| without_student(sv, student@),
            ));
            Ok(RatesConfig { service_costs: Some(out) })
        },
    }
}

/// The rates of a service other than that of `student`; none without rates.
pub open spec fn rates_off(sv: ServiceCostView, student: Seq<char>) -> Map<Seq<char>, u64> {
    match sv.rates {
        Some(m) => m.remove(student),
        None => Map::empty(),
    }
}

proof fn lemma_client_rates_off(s1: Seq<ServiceCostView>, s2: Seq<ServiceCostView>, student: Seq<char>)
    requires
        s1.len() == s2.len(),
        forall|i: int| 0 <= i < s1.len() ==> rates_off(#[trigger] s1[i], student) == rates_off(s2[i], student),
    ensures
        client_rates(s1).remove(student) == client_rates(s2).remove(student),
    decreases s1.len(),
{
    if s1.len() > 0 {
        let a = s1.drop_last();
        let b = s2.drop_last();
        assert forall|i: int| 0 <= i < a.len() implies rates_off(#[trigger] a[i], student) == rates_off(b[i], student) by {
            assert(a[i] == s1[i] && b[i] == s2[i]);
        }
        lemma_client_rates_off(a, b, student);
        let ra = client_rates(a);
        let rb = client_rates(b);
        assert(rates_off(s1.last(), student) == rates_off(s2.last(), student));
        let x = client_rates(s1);
        let y = client_rates(s2);
        assert(x.remove(student) =~= ra.remove(student).union_prefer_right(rates_off(s1.last(), student)));
        assert(y.remove(student) =~= rb.remove(student).union_prefer_right(rates_off(s2.last(), student)));
    }
}

proof fn lemma_client_rates_extra(s: Seq<ServiceCostView>, x: ServiceCostView, student: Seq<char>)
    requires
        rates_off(x, student) == Map::<Seq<char>, u64>::empty(),
    ensures
        client_rates(s.push(x)).remove(student) == client_rates(s).remove(student),
{
    assert(s.push(x).drop_last() =~= s);
    if let Some(m) = x.rates {
        assert forall|k: Seq<char>| k != student implies !m.contains_key(k) by {
            assert(!m.remove(student).contains_key(k));
        }
    }
    assert(client_rates(s.push(x)).remove(student) =~= client_rates(s).remove(student));
}

/// Changing the rate of a student leaves every other client's rate as it was.
pub proof fn lemma_rate_change_keeps_others(
    svs: Seq<ServiceCostView>,
    student: Seq<char>,
    rate: u64,
    service: Option<Seq<char>>,
)
    ensures
        client_rates(student_rate_set(svs, student, rate, service)).remove(student) == client_rates(
            svs,
        ).remove(student),
{
    let new = student_rate_set(svs, student, rate, service);
    assert forall|sv: ServiceCostView| #[trigger] rates_off(with_student(sv, student, rate), student) == rates_off(sv, student) by {
        if let Some(m) = sv.rates {
            assert(m.insert(student, rate).remove(student) =~= m.remove(student));
        } else {
            assert(Map::<Seq<char>, u64>::empty().insert(student, rate).remove(student) =~= Map::<
                Seq<char>,
                u64,
            >::empty());
        }
    }
    if new.len() == svs.len() {
        assert forall|i: int| 0 <= i < new.len() implies rates_off(#[trigger] new[i], student) == rates_off(svs[i], student) by {
        }
        lemma_client_rates_off(new, svs, student);
    } else if svs.len() == 0 {
        let x = new[0];
        assert(new =~= Seq::<ServiceCostView>::empty().push(x));
        assert(rates_off(x, student) =~= Map::<Seq<char>, u64>::empty());
        lemma_client_rates_extra(Seq::<ServiceCostView>::empty(), x, student);
    } else {
        let x = new.last();
        assert(new =~= svs.push(x));
        assert(rates_off(x, student) =~= Map::<Seq<char>, u64>::empty());
        lemma_client_rates_extra(svs, x, student);
    }
}

proof fn lemma_client_rates_read(s: Seq<ServiceCostView>, student: Seq<char>, rate: u64)
    requires
        forall|i: int| 0 <= i < s.len() && rated(#[trigger] s[i], student) ==> s[i].rates->0[student] == rate,
        exists|i: int| 0 <= i < s.len() && rated(#[trigger] s[i], student),
    ensures
        client_rates(s).contains_key(student),
        client_rates(s)[student] == rate,
    decreases s.len(),
{
    let a = s.drop_last();
    if rated(s.last(), student) {
    } else {
        let w = choose|i: int| 0 <= i < s.len() && rated(#[trigger] s[i], student);
        assert(w < s.len() - 1);
        assert(rated(a[w], student));
        assert forall|i: int| 0 <= i < a.len() && rated(#[trigger] a[i], student) implies a[i].rates->0[student] == rate by {
            assert(a[i] == s[i]);
        }
        lemma_client_rates_read(a, student, rate);
    }
}

/// After a student is given a rate without naming a service, the rate of
/// that student is the new rate.
pub proof fn lemma_rate_read_back(svs: Seq<ServiceCostView>, student: Seq<char>, rate: u64)
    ensures
        client_rates(student_rate_set(svs, student, rate, None)).contains_key(student),
        client_rates(student_rate_set(svs, student, rate, None))[student] == rate,
{
    let new = student_rate_set(svs, student, rate, None);
    if exists|i: int| 0 <= i < svs.len() && rated(#[trigger] svs[i], student) {
        let w = choose|i: int| 0 <= i < svs.len() && rated(#[trigger] svs[i], student);
        assert(rated(new[w], student));
    } else if svs.len() > 0 {
        assert(rated(new[0], student));
        assert forall|i: int| 0 <= i < new.len() && rated(#[trigger] new[i], student) implies new[i].rates->0[student] == rate by {
            if i != 0 {
                assert(new[i] == svs[i]);
            }
        }
    } else {
        assert(rated(new[0], student));
    }
    lemma_client_rates_read(new, student, rate);
}

proof fn lemma_service_rates_read(s: Seq<ServiceCostView>, name: Seq<char>, student: Seq<char>, rate: u64)
    requires
        forall|i: int|
            0 <= i < s.len() && #[trigger] s[i].name == name && s[i].rates is Some ==> s[i].rates->0.contains_key(student)
                && s[i].rates->0[student] == rate,
        exists|i: int| 0 <= i < s.len() && #[trigger] s[i].name == name && s[i].rates is Some,
    ensures
        rates_by_service(s).contains_key(name),
        rates_by_service(s)[name].contains_key(student),
        rates_by_service(s)[name][student] == rate,
    decreases s.len(),
{
    let a = s.drop_last();
    if s.last().name == name && s.last().rates is Some {
    } else {
        let w = choose|i: int| 0 <= i < s.len() && #[trigger] s[i].name == name && s[i].rates is Some;
        assert(w < s.len() - 1);
        assert(a[w].name == name && a[w].rates is Some);
        assert forall|i: int|
            0 <= i < a.len() && #[trigger] a[i].name == name && a[i].rates is Some implies a[i].rates->0.contains_key(student)
                && a[i].rates->0[student] == rate by {
            assert(a[i] == s[i]);
        }
        lemma_service_rates_read(a, name, student, rate);
    }
}

/// After a student is given a rate in a named service, that service's rate
/// of the student is the new rate.
pub proof fn lemma_named_rate_read_back(svs: Seq<ServiceCostView>, student: Seq<char>, rate: u64, name: Seq<char>)
    ensures
        rates_by_service(student_rate_set(svs, student, rate, Some(name))).contains_key(name),
        rates_by_service(student_rate_set(svs, student, rate, Some(name)))[name].contains_key(student),
        rates_by_service(student_rate_set(svs, student, rate, Some(name)))[name][student] == rate,
{
    let new = student_rate_set(svs, student, rate, Some(name));
    if exists|i: int| 0 <= i < svs.len() && #[trigger] svs[i].name == name {
        let w = choose|i: int| 0 <= i < svs.len() && #[trigger] svs[i].name == name;
        assert(new[w].name == name && new[w].rates is Some);
    } else {
        assert(new[new.len() - 1].name == name && new[new.len() - 1].rates is Some);
        assert forall|i: int|
            0 <= i < new.len() && #[trigger] new[i].name == name && new[i].rates is Some implies new[i].rates->0.contains_key(student)
                && new[i].rates->0[student] == rate by {
            if i < svs.len() {
                assert(new[i] == svs[i]);
            }
        }
    }
    lemma_service_rates_read(new, name, student, rate);
}

/// Taking away a student's rates takes the student out of the client rates
/// and leaves every other client's rate as it was.
pub proof fn lemma_remove_rate(svs: Seq<ServiceCostView>, student: Seq<char>)
    ensures
        client_rates(svs.map_values(|sv: ServiceCostView| without_student(sv, student))) == client_rates(
            svs,
        ).remove(student),
    decreases svs.len(),
{
    let new = svs.map_values(|sv: ServiceCostView| without_student(sv, student));
    if svs.len() > 0 {
        let a = svs.drop_last();
        assert(new.drop_last() =~= a.map_values(|sv: ServiceCostView| without_student(sv, student)));
        lemma_remove_rate(a, student);
        assert(client_rates(new) =~= client_rates(svs).remove(student));
    } else {
        assert(client_rates(new) =~= client_rates(svs).remove(student));
    }
}

/// Taking away the rates of a student who was just given one leaves the
/// client rates as they were before, without that student.
pub proof fn lemma_set_then_remove(
    svs: Seq<ServiceCostView>,
    student: Seq<char>,
    rate: u64,
    service: Option<Seq<char>>,
)
    ensures
        client_rates(
            student_rate_set(svs, student, rate, service).map_values(
                |sv: ServiceCostView| without_student(sv, student),
            ),
        ) == client_rates(svs).remove(student),
{
    lemma_remove_rate(student_rate_set(svs, student, rate, service), student);
    lemma_rate_change_keeps_others(svs, student, rate, service);
}

/// A list of pairs with distinct names holds the same map with a pair of a
/// new name inserted anywhere as with it added last.
pub proof fn lemma_pairs_map_insert<V>(pairs: Seq<(String, V)>, p: int, x: (String, V))
    requires
        0 <= p <= pairs.len(),
        forall|i: int| 0 <= i < pairs.len() ==> #[trigger] pairs[i].0@ != x.0@,
    ensures
        pairs_map(pairs.insert(p, x)) == pairs_map(pairs).insert(x.0@, x.1),
    decreases pairs.len(),
{
    if p == pairs.len() {
        assert(pairs.insert(p, x) =~= pairs.push(x));
        lemma_pairs_map_push(pairs, x);
    } else {
        let init = pairs.drop_last();
        let last = pairs.last();
        assert forall|i: int| 0 <= i < init.len() implies #[trigger] init[i].0@ != x.0@ by {
            assert(init[i] == pairs[i]);
        }
        lemma_pairs_map_insert(init, p, x);
        assert(pairs.insert(p, x) =~= init.insert(p, x).push(last));
        lemma_pairs_map_push(init.insert(p, x), last);
        assert(pairs =~= init.push(last));
        lemma_pairs_map_push(init, last);
        assert(pairs_map(init).insert(x.0@, x.1).insert(last.0@, last.1) =~= pairs_map(init).insert(
            last.0@,
            last.1,
        ).insert(x.0@, x.1));
    }
}

/// Every client's rate, ordered by client name: the rates table.
pub fn rates_table(config: &RatesConfig) -> (r: Vec<(String, u64)>)
    ensures
        crate::order::pairs_sorted_by_name(r@),
        pairs_map(r@) == client_rates(services_of(*config)),
        distinct_names(r@),
{
    let lookup = client_cost_lookup(config);
    let r = crate::order::sort_pairs_by_name(lookup);
    proof {
        assert forall|i: int, j: int| 0 <= i < j < r@.len() implies #[trigger] r@[i].0@ != #[trigger] r@[j].0@ by {
            crate::order::lemma_text_lt_irreflexive(r@[i].0@);
        }
    }
    r
}

/// Setting a rate without naming a service, for a student some service
/// already rates, changes only the services that rate the student: every
/// other service, and its set of rated students, is left as it was, and no
/// service is added.
pub proof fn lemma_rate_change_touches_only_rated_services(svs: Seq<ServiceCostView>, student: Seq<char>, rate: u64)
    requires
        exists|i: int| 0 <= i < svs.len() && rated(#[trigger] svs[i], student),
    ensures
        student_rate_set(svs, student, rate, None).len() == svs.len(),
        forall|i: int|
            0 <= i < svs.len() && !rated(#[trigger] svs[i], student) ==> student_rate_set(svs, student, rate, None)[i]
                == svs[i],
        forall|i: int|
            0 <= i < svs.len() && rated(#[trigger] svs[i], student) ==> (student_rate_set(svs, student, rate, None)[i].rates
                matches Some(m) && m.dom() == svs[i].rates->0.dom() && m[student] == rate),
{
    assert forall|i: int| 0 <= i < svs.len() && rated(#[trigger] svs[i], student) implies (student_rate_set(
        svs,
        student,
        rate,
        None,
    )[i].rates matches Some(m) && m.dom() == svs[i].rates->0.dom() && m[student] == rate) by {
        let m0 = svs[i].rates->0;
        assert(m0.insert(student, rate).dom() =~= m0.dom());
    }
}

} // verus!
