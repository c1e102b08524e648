use bench_history::id::{unique_name, BenchmarkId, Throughput};
use bench_history::model::{Model, SavedBenchmarkId};
use bench_history::store::{completion_paths, completion_steps, data_directory_of, join_path, WriteStep};

fn bid(g: &str, f: Option<&str>, v: Option<&str>) -> BenchmarkId {
    BenchmarkId::new(g.to_string(), f.map(|s| s.to_string()), v.map(|s| s.to_string()), None)
}

fn saved(g: &str, f: Option<&str>) -> SavedBenchmarkId {
    SavedBenchmarkId {
        group_id: g.to_string(),
        function_id: f.map(|s| s.to_string()),
        value_str: None,
        throughput: None,
    }
}

#[test]
fn title_and_directory_from_parts() {
    let id = bid("group", Some("fn"), Some("10"));
    assert_eq!(id.as_title(), "group/fn/10");
    assert_eq!(id.as_directory_name(), "group/fn/10");
    let id = bid("group", None, Some("10"));
    assert_eq!(id.as_title(), "group/10");
}

#[test]
fn unique_name_suffixes() {
    let existing = vec!["a".to_string(), "a #2".to_string()];
    assert_eq!(unique_name(&"b".to_string(), " #", &existing), "b");
    assert_eq!(unique_name(&"a".to_string(), " #", &existing), "a #3");
    let full = vec!["a".to_string()];
    assert_eq!(unique_name(&"a".to_string(), "_", &full), "a_2");
}

#[test]
fn same_identity_ignores_title() {
    let mut model: Model<u64> = Model::new("d".to_string());
    let mut a = bid("g", Some("f"), None);
    model.add_benchmark_id(&"t".to_string(), &mut a);
    let mut b = bid("g", Some("f"), None);
    model.add_benchmark_id(&"t".to_string(), &mut b);
    assert!(a.same_identity(&b));
    assert_ne!(a.as_title(), b.as_title());
    assert_eq!(b.as_title(), "g/f #2");
    let c = BenchmarkId::new("g".to_string(), Some("f".to_string()), None, Some(Throughput::Bytes(1)));
    assert!(!a.same_identity(&c));
}

#[test]
fn colliding_titles_become_distinct() {
    let mut model: Model<u64> = Model::new("d".to_string());
    let mut a = bid("g", Some("f/x"), None);
    let mut b = bid("g/f", Some("x"), None);
    assert_eq!(a.as_title(), b.as_title());
    assert!(model.add_benchmark_id(&"t".to_string(), &mut a).is_none());
    assert!(model.add_benchmark_id(&"t".to_string(), &mut b).is_none());
    assert_ne!(a.as_title(), b.as_title());
    assert_ne!(a.as_directory_name(), b.as_directory_name());
    assert_eq!(b.as_title(), "g/f/x #2");
    assert_eq!(b.as_directory_name(), "g/f/x_2");
    assert_eq!(model.all_titles.len(), 2);
}

#[test]
fn same_target_twice_does_not_warn() {
    let mut model: Model<u64> = Model::new("d".to_string());
    let mut a = bid("g", Some("f"), None);
    let mut b = bid("g", Some("f"), None);
    assert!(model.add_benchmark_id(&"t".to_string(), &mut a).is_none());
    assert!(model.add_benchmark_id(&"t".to_string(), &mut b).is_none());
    assert_eq!(model.groups.len(), 1);
    assert_eq!(model.groups[0].1.benchmarks.len(), 1);
}

#[test]
fn other_target_warns_once_and_first_owner_stays() {
    let mut model: Model<u64> = Model::new("d".to_string());
    let mut a = bid("g", Some("f"), None);
    let mut b = bid("g", Some("f"), None);
    assert!(model.add_benchmark_id(&"first".to_string(), &mut a).is_none());
    assert_eq!(
        model.add_benchmark_id(&"second".to_string(), &mut b),
        Some("first".to_string())
    );
    let bench = &model.groups[0].1.benchmarks[0].1;
    assert_eq!(bench.target, Some("first".to_string()));
}

#[test]
fn reregistration_moves_to_end() {
    let mut model: Model<u64> = Model::new("d".to_string());
    let t = "t".to_string();
    let mut a = bid("g", Some("a"), None);
    let mut b = bid("g", Some("b"), None);
    let mut a2 = bid("g", Some("a"), None);
    model.add_benchmark_id(&t, &mut a);
    model.add_benchmark_id(&t, &mut b);
    model.add_benchmark_id(&t, &mut a2);
    let order: Vec<Option<String>> =
        model.groups[0].1.benchmarks.iter().map(|e| e.0.function_id.clone()).collect();
    assert_eq!(order, vec![Some("b".to_string()), Some("a".to_string())]);
}

#[test]
fn completion_round_trip() {
    let mut model: Model<u64> = Model::new("d".to_string());
    let mut id = bid("g", Some("f"), None);
    model.add_benchmark_id(&"t".to_string(), &mut id);
    assert_eq!(model.get_last_sample(&id), None);
    model.benchmark_complete(&id, 7);
    assert_eq!(model.get_last_sample(&id), Some(&7));
    model.benchmark_complete(&id, 9);
    assert_eq!(model.get_last_sample(&id), Some(&9));
    let bench = &model.groups[0].1.benchmarks[0].1;
    assert_eq!(bench.previous_stats(), Some(&7));
    assert_eq!(bench.latest_stats(), Some(&9));
}

#[test]
fn registration_keeps_loaded_history() {
    let mut model: Model<u64> =
        Model::load("d".to_string(), vec![Ok((saved("g", Some("f")), 3))]);
    let mut id = bid("g", Some("f"), None);
    model.add_benchmark_id(&"t".to_string(), &mut id);
    assert_eq!(model.get_last_sample(&id), Some(&3));
    model.benchmark_complete(&id, 4);
    assert_eq!(model.groups[0].1.benchmarks[0].1.previous_stats, Some(3));
}

#[test]
fn load_skips_failed_records() {
    let model: Model<u64> = Model::load(
        "d".to_string(),
        vec![Err("corrupt".to_string()), Ok((saved("g", Some("f")), 5))],
    );
    assert_eq!(model.groups.len(), 1);
    assert_eq!(model.groups[0].0, "g");
    assert_eq!(model.groups[0].1.benchmarks.len(), 1);
    assert_eq!(model.get_last_sample(&bid("g", Some("f"), None)), Some(&5));
}

#[test]
fn reload_gives_same_index() {
    let records = || {
        vec![
            Ok((saved("g", Some("f")), 1u64)),
            Ok((saved("h", None), 2u64)),
            Err("bad".to_string()),
            Ok((saved("g", Some("e")), 3u64)),
        ]
    };
    let a: Model<u64> = Model::load("d".to_string(), records());
    let b: Model<u64> = Model::load("d".to_string(), records());
    let shape = |m: &Model<u64>| -> Vec<(String, Vec<(Option<String>, Option<u64>)>)> {
        m.groups
            .iter()
            .map(|(g, grp)| {
                (
                    g.clone(),
                    grp.benchmarks
                        .iter()
                        .map(|(id, bench)| (id.function_id.clone(), bench.latest_stats))
                        .collect(),
                )
            })
            .collect()
    };
    assert_eq!(shape(&a), shape(&b));
    assert_eq!(shape(&a).len(), 2);
}

#[test]
fn group_ownership_and_check() {
    let mut model: Model<u64> = Model::new("d".to_string());
    model.add_benchmark_group(&"t1".to_string(), "g".to_string());
    model.add_benchmark_group(&"t1".to_string(), "h".to_string());
    assert_eq!(model.check_benchmark_group(&"t1".to_string(), &"g".to_string()), None);
    assert_eq!(
        model.check_benchmark_group(&"t2".to_string(), &"g".to_string()),
        Some("t1".to_string())
    );
    assert_eq!(model.check_benchmark_group(&"t2".to_string(), &"zz".to_string()), None);
    model.add_benchmark_group(&"t2".to_string(), "g".to_string());
    assert_eq!(model.groups[1].0, "g");
    assert_eq!(model.groups[1].1.target, Some("t2".to_string()));
}

#[test]
fn saved_id_round_trip() {
    let id = BenchmarkId::new(
        "g".to_string(),
        Some("f".to_string()),
        Some("1".to_string()),
        Some(Throughput::Elements(4)),
    );
    let s = SavedBenchmarkId::from_id(id.duplicate());
    let back = s.into_id();
    assert!(back.same_identity(&id));
    assert_eq!(back.as_title(), "g/f/1");
}

#[test]
fn paths_of_a_completion() {
    assert_eq!(data_directory_of(&"home".to_string(), &"main".to_string()), "home/data/main");
    assert_eq!(join_path(&"a".to_string(), "b"), "a/b");
    let p = completion_paths("d/g".to_string(), "measurement_240101120000.cbor".to_string());
    assert_eq!(p.measurement_path, "d/g/measurement_240101120000.cbor");
    assert_eq!(p.record_path, "d/g/benchmark.cbor");
}

#[test]
fn planned_measurement_name_has_time_stamp() {
    let model: Model<u64> = Model::new("root".to_string());
    let id = bid("g", Some("f"), None);
    let p = model.plan_completion(&id);
    assert_eq!(p.directory, "root/g/f");
    assert!(p.measurement_name.starts_with("measurement_"));
    assert!(p.measurement_name.ends_with(".cbor"));
    assert_eq!(p.measurement_name.len(), 29);
    assert!(p.measurement_name[12..24].chars().all(|c| c.is_ascii_digit()));
    assert_eq!(p.record_path, "root/g/f/benchmark.cbor");
}

#[test]
fn saved_id_from_identity_keeps_fields() {
    let id = BenchmarkId::new("g".to_string(), None, Some("v".to_string()), Some(Throughput::Bytes(8)));
    let s: SavedBenchmarkId = id.into();
    assert_eq!(s.group_id, "g");
    assert_eq!(s.function_id, None);
    assert_eq!(s.value_str, Some("v".to_string()));
    assert_eq!(s.throughput, Some(Throughput::Bytes(8)));
}

#[test]
fn defaults_are_empty() {
    let b: bench_history::model::Benchmark<u64> = Default::default();
    assert!(b.latest_stats.is_none() && b.previous_stats.is_none() && b.target.is_none());
    let g: bench_history::model::BenchmarkGroup<u64> = Default::default();
    assert!(g.benchmarks.is_empty() && g.target.is_none());
}

#[test]
fn record_written_after_measurement() {
    assert_eq!(
        completion_steps(),
        vec![
            WriteStep::CreateDirectory,
            WriteStep::WriteMeasurement,
            WriteStep::WriteRecord,
            WriteStep::UpdateIndex,
        ]
    );
}

#[test]
fn unique_name_reaches_two_digits() {
    let mut existing = vec!["a".to_string()];
    for n in 2..10 {
        existing.push(format!("a #{}", n));
    }
    assert_eq!(unique_name(&"a".to_string(), " #", &existing), "a #10");
}
