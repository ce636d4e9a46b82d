use annp::checkpoint::ModelCheckpoint;
use annp::config::{MicroBlockConfig, NormStrategy};
use annp::export::{
    choose_export, dataset_header, dataset_record, dataset_row, edge_weights, export_csv, export_dot,
    export_summary, json_document, EdgeFigures, ExportFormat, ExportProgress, SummaryFigures,
};
use annp::metrics::OnlineStats;
use annp::reports::{
    chrono_timestamp, clock_text, epoch_message, evaluation_header, evaluation_message,
    evaluation_row, evaluation_summary, hardening_message, log_file_name, log_line, step_message,
    timestamp_at, training_header, training_row,
};
use annp::scalar::Scalar;
use annp::settings::{
    AnnpTomlConfig, DatasetOutput, EvictionSection, ExportDatasetArgs, InitCheckpointArgs,
};
use annp::text::{aligned_decimal, decimal_text, has_text, put_left_aligned, put_padded, trim};
use annp::topology::RoutingTable;

fn scalar(x: f32) -> Scalar {
    Scalar::from_bits(x.to_bits())
}

fn scalars(values: &[f32]) -> Vec<Scalar> {
    values.iter().map(|&x| scalar(x)).collect()
}

fn strings(list: &[&str]) -> Vec<String> {
    list.iter().map(|s| s.to_string()).collect()
}

fn some(text: &str) -> Option<String> {
    Some(text.to_string())
}

fn stats(count: f32, mean: f32) -> OnlineStats {
    OnlineStats { count: scalar(count), mean: scalar(mean), ..OnlineStats::default() }
}

fn figures(mean: &str) -> EdgeFigures {
    EdgeFigures {
        mean: mean.to_string(),
        variance: "0.5".to_string(),
        count: "3".to_string(),
        norm: "1.25".to_string(),
    }
}

fn small_checkpoint() -> ModelCheckpoint {
    let mut first = RoutingTable::new(2, vec![1, 2], scalars(&[1.0, 2.0, 3.0, 4.0]));
    first.edge_credit = vec![stats(3.0, 0.25), stats(0.0, 0.0)];
    let mut second = RoutingTable::new(2, vec![0], scalars(&[5.0, 6.0]));
    second.edge_credit = vec![stats(2.0, 0.75)];
    ModelCheckpoint {
        stage_completed: 1,
        epoch_completed: 2,
        config: MicroBlockConfig::default(),
        nodes: Vec::new(),
        routing_tables: vec![first, second, RoutingTable::new(2, vec![1], scalars(&[7.0, 8.0]))],
    }
}

fn all_figures() -> Vec<Vec<EdgeFigures>> {
    vec![vec![figures("0.250"), figures("0.000")], vec![figures("0.750")], vec![figures("nan")]]
}

#[test]
fn numbers_are_written_as_usual() {
    for n in [0u64, 9, 10, 99, 100, 12345, u64::MAX] {
        assert_eq!(decimal_text(n), format!("{}", n));
        assert_eq!(aligned_decimal(n, 4), format!("{:4}", n));
        let mut padded = String::new();
        put_padded(&mut padded, n, 5);
        assert_eq!(padded, format!("{:05}", n));
    }
    for s in ["", "ab", "äöü", "0123456789abc"] {
        let mut aligned = String::new();
        put_left_aligned(&mut aligned, s, 10);
        assert_eq!(aligned, format!("{:<10}", s));
    }
}

#[test]
fn trimming_and_searching_work_as_usual() {
    for s in ["", "  ", " a b ", "\t\n x\u{a0}\u{3000}", "plain", "\u{200b}y"] {
        assert_eq!(trim(s), s.trim());
        assert_eq!(trim(&trim(s)), trim(s));
    }
    for (s, part) in [("", ""), ("abc", ""), ("abc", "bc"), ("abc", "abcd"), ("aab", "ab")] {
        assert_eq!(has_text(s, part), s.contains(part));
    }
}

#[test]
fn time_is_shown_to_the_millisecond() {
    assert_eq!(clock_text(0, 0), "00:00:00.000");
    assert_eq!(clock_text(86399, 999), "23:59:59.999");
    assert_eq!(clock_text(86400 + 3661, 7), "01:01:01.007");
    assert_eq!(timestamp_at(None), "00:00:00.000");
    assert_eq!(timestamp_at(Some(0)), "00:00:00.000");
    assert_eq!(timestamp_at(Some(90061005)), "01:01:01.005");
    assert_eq!(timestamp_at(Some(90061005 - 86_400_000)), "01:01:01.005");
    assert_eq!(timestamp_at(Some(u64::MAX as u128 * 1000 + 999)), "07:00:15.999");
    let now = chrono_timestamp();
    assert_eq!(now.len(), 12);
    let bytes = now.as_bytes();
    assert_eq!((bytes[2], bytes[5], bytes[8]), (b':', b':', b'.'));
    let seconds = std::time::SystemTime::now()
        .duration_since(std::time::SystemTime::UNIX_EPOCH)
        .unwrap()
        .as_secs();
    let shown: u64 = now[0..2].parse::<u64>().unwrap() * 3600
        + now[3..5].parse::<u64>().unwrap() * 60
        + now[6..8].parse::<u64>().unwrap();
    assert!((seconds % 86400 + 86400 - shown) % 86400 <= 5);
}

#[test]
fn log_entries_have_a_tag() {
    assert_eq!(log_line("12:00:00.000", "TAG", "hello"), "[12:00:00.000] TAG | hello\n");
    assert_eq!(log_file_name("train", 17), "train_17.log");
}

#[test]
fn hardening_is_reported() {
    assert_eq!(
        hardening_message(3, 10, 4, 2, &vec![(0, 1, 2), (7, 2, 3)]),
        "Hardening Pass (Epoch 3): Pruned 4 links (Remaining: 6). Spawned 2 local subnodes.\
         \n  -> Node 0: subnodes 1 -> 2\n  -> Node 7: subnodes 2 -> 3"
    );
    assert!(hardening_message(0, 1, 5, 0, &Vec::new()).contains("(Remaining: 0)"));
}

#[test]
fn training_tables_keep_twelve_places() {
    assert_eq!(
        training_header(),
        "timestamp,epoch,batch,step_loss,ema_loss,early_halting_rate,gini,avg_hops,avg_energy,memory_density,active_subnodes,credit_volatility,temporal_affinity"
    );
    let values = [2.75f32, 2.8, 0.05, 0.15, 3.5, 1.25, 0.85, 1.5, 0.02, 0.95];
    let shown: Vec<String> = values.iter().map(|v| format!("{:.12}", v)).collect();
    let row = training_row("00:00:00.000", 1, 42, &shown);
    let fields: Vec<&str> = row.trim_end().split(',').collect();
    assert_eq!(fields.len(), training_header().split(',').count());
    assert_eq!(fields[1], "1");
    assert_eq!(fields[2], "42");
    for field in &fields[3..13] {
        let parts: Vec<&str> = field.split('.').collect();
        assert_eq!(parts.len(), 2, "Field {} is missing decimal point", field);
        assert_eq!(parts[1].len(), 12, "Field {} does not have 12 decimal places", field);
    }
    assert!((fields[3].parse::<f32>().unwrap() - 2.75).abs() < 1e-6);
    assert!((fields[4].parse::<f32>().unwrap() - 2.8).abs() < 1e-6);
    assert_eq!(
        step_message(1, 5, 42, &strings(&["2.7500", "2.8000", "5.00", "0.1500", "3.5000"])),
        "[Epoch  1/ 5 | Batch   42] Loss: 2.7500 (EMA: 2.8000) | Halt: 5.00% | Gini: 0.1500 | Hops: 3.5000"
    );
}

#[test]
fn evaluation_tables_keep_twelve_places() {
    assert_eq!(
        evaluation_header(),
        "timestamp,batch,next_token_mse,next_token_cossim,next_token_mae,nmse,psnr_db,direct_recon_mse,internal_td_loss,early_halting_rate,gini,avg_hops,avg_energy,memory_density,active_subnodes"
    );
    let row = evaluation_row("00:00:00.000", 10, &vec![format!("{:.12}", 0.045678912345f32)]);
    let fields: Vec<&str> = row.trim_end().split(',').collect();
    assert_eq!(fields[1], "10");
    assert!((fields[2].parse::<f32>().unwrap() - 0.045678912345).abs() < 1e-6);
    assert_eq!(
        evaluation_message(10, 100, &strings(&["1", "2", "3", "4", "5", "6"])),
        "[Eval Batch   10/ 100] NextMSE: 1 | CosSim: 2 | PSNR: 3 dB | TD-Loss: 4 | Halt: 5% | Hops: 6"
    );
}

#[test]
fn epochs_and_evaluations_are_summed_up() {
    let nine = strings(&["1", "2", "3", "4", "5", "6", "7", "8", "9"]);
    assert_eq!(
        epoch_message(2, 8, &nine),
        "Epoch 2/8 Metrics Summary:\n  - Avg Loss: 1\n  - Avg Hop Count: 2\n  - Early Halting Rate: 3%\n  - Signal Energy (var): 4\n  - Node Util Gini: 5\n  - Attention Entropy: 6\n  - Avg Active Subnodes: 7\n  - Credit Volatility: 8\n  - Mean Temporal Affinity: 9"
    );
    let list: Vec<String> = (1..19).map(|i| i.to_string()).collect();
    let plain = evaluation_summary(5, &list, &None);
    assert!(plain.contains("Summary (5/5 Batches Evaluated)"));
    assert!(plain.contains("- Next-Token MSE (Median [Min, Max]): 3 [4, 5]\n"));
    assert!(plain.contains("- Active Subnodes: 18\n===="));
    let recall = Some(strings(&["a", "b", "c"]));
    let longer = evaluation_summary(5, &list, &recall);
    assert!(longer.contains("- Active Subnodes: 18\n  - Associative Key MSE: a\n"));
    assert!(longer.contains("(CosSim > 0.9): c%\n===="));
}

#[test]
fn exports_are_chosen_by_name_or_path() {
    assert_eq!(choose_export(&some("dot"), &some("csv")), ExportFormat::Dot);
    // a name that is asked for is taken as it is written
    assert_eq!(choose_export(&some("DOT"), &None), ExportFormat::Json);
    assert_eq!(choose_export(&None, &some("GV")), ExportFormat::Dot);
    assert_eq!(choose_export(&None, &some("txt")), ExportFormat::Summary);
    assert_eq!(choose_export(&None, &some("csv")), ExportFormat::Csv);
    assert_eq!(choose_export(&None, &None), ExportFormat::Json);
}

#[test]
fn topologies_are_drawn() {
    let dot = export_dot(&small_checkpoint(), &Vec::new(), &all_figures());
    assert!(dot.starts_with("digraph ANNP_Mesh_Topology {\n"));
    assert!(dot.contains("  node_0 -> node_1 [label=\"μ=0.250, n=3\", penwidth=1.8];\n"));
    assert!(dot.contains("  node_0 -> node_2 [label=\"init\", penwidth=0.8];\n"));
    assert!(dot.contains("  node_2 -> node_1 [label=\"init\", penwidth=0.8];\n"));
    assert!(dot.ends_with("}\n"));
}

#[test]
fn topologies_are_listed() {
    let mut bare = small_checkpoint();
    bare.routing_tables[2].edge_credit.clear();
    let csv = export_csv(&bare, &all_figures());
    assert!(csv.starts_with("source_node,target_node,edge_index,mean_credit,variance_credit,observation_count,weight_norm\n"));
    let lines: Vec<&str> = csv.lines().collect();
    assert_eq!(lines.len(), 5);
    assert_eq!(lines[1], "0,1,0,0.250,0.5,3,1.25");
    assert_eq!(lines[4], "2,1,0,0.00000000,0.00000000,0,1.25");
    let checkpoint = small_checkpoint();
    assert_eq!(edge_weights(&checkpoint.routing_tables[0], 2, 1), scalars(&[2.0, 4.0]));
    assert_eq!(edge_weights(&checkpoint.routing_tables[0], 9, 1), scalars(&[2.0, 4.0]));
}

#[test]
fn topologies_are_summed_up() {
    let summary = SummaryFigures {
        initial_energy: "1.0000".to_string(),
        weight_decay: "0.000100".to_string(),
        avg_subnodes: "0.00".to_string(),
    };
    let text = export_summary(&small_checkpoint(), &summary, &all_figures());
    assert!(text.contains("ANNP MODEL CHECKPOINT TOPOLOGY REPORT"));
    assert!(text.contains("Stage Completed:     1\n"));
    assert!(text.contains("Mesh Dimensions:     10 x 10 (0 total nodes)\n"));
    assert!(text.contains("d_head=64, d_model=256 (4 shards)\n"));
    let tail: Vec<&str> = text.lines().rev().take(2).collect();
    assert_eq!(tail[1], format!("{:<10} {:<10} {:<15} {:<12} {:<15}", 1, 0, "0.750", 3, "0.5"));
    assert_eq!(tail[0], format!("{:<10} {:<10} {:<15} {:<12} {:<15}", 0, 1, "0.250", 3, "0.5"));
    let mut silent = small_checkpoint();
    for table in &mut silent.routing_tables {
        table.edge_credit.clear();
    }
    let text = export_summary(&silent, &summary, &all_figures());
    assert!(text.ends_with("No active edge credit statistics recorded yet.\n"));
}

#[test]
fn reports_show_twenty_links_at_most() {
    let mut table = RoutingTable::new(1, (0..30).collect(), scalars(&[0.0; 30]));
    table.edge_credit = (0..30).map(|i| stats(1.0, (i / 2) as f32)).collect();
    let checkpoint = ModelCheckpoint { routing_tables: vec![table], ..small_checkpoint() };
    let list = vec![(0..30).map(|i| figures(&i.to_string())).collect::<Vec<_>>()];
    let summary = SummaryFigures {
        initial_energy: String::new(),
        weight_decay: String::new(),
        avg_subnodes: String::new(),
    };
    let text = export_summary(&checkpoint, &summary, &list);
    let targets: Vec<usize> = text
        .lines()
        .rev()
        .take(20)
        .map(|line| line[11..21].trim().parse().unwrap())
        .collect();
    let expected: Vec<usize> = (5..15).flat_map(|k| [2 * k + 1, 2 * k]).collect();
    assert_eq!(targets, expected);
}

#[test]
fn datasets_are_written_in_several_forms() {
    assert_eq!(dataset_header(3), "batch_idx,step,f0,f1,f2\n");
    assert_eq!(dataset_row(4, 5, &strings(&["0.1", "0.2"])), "4,5,0.1,0.2\n");
    let record = dataset_record(1, 2, &scalars(&[1.0, -1.0]));
    let mut expected = Vec::new();
    expected.extend_from_slice(&1u32.to_le_bytes());
    expected.extend_from_slice(&2u32.to_le_bytes());
    expected.extend_from_slice(&1.0f32.to_le_bytes());
    expected.extend_from_slice(&(-1.0f32).to_le_bytes());
    assert_eq!(record, expected);
    let document = json_document(&strings(&["{\"a\":1}", "{\"a\":2}", "{\"a\":3}"]));
    assert_eq!(document, "[\n  {\"a\":1},\n  {\"a\":2},\n  {\"a\":3}\n]\n");
    let parsed: serde_json::Value = serde_json::from_str(&document).unwrap();
    assert_eq!(parsed.as_array().unwrap().len(), 3);
    assert_eq!(json_document(&Vec::new()), "[\n\n]\n");
    let mut progress = ExportProgress::start(2);
    assert!(!progress.exported(64));
    assert!(progress.exported(64));
    assert_eq!(progress.total_tokens, 128);
    assert!(ExportProgress::start(0).exported(1));
}

#[test]
fn settings_make_a_configuration() {
    let mut settings = AnnpTomlConfig::default();
    assert_eq!(settings.train.learning_rate, scalar(0.02));
    assert_eq!(settings.train.path(), "synthetic");
    let config = settings.to_core_config();
    assert_eq!(config.max_hop, 100);
    assert_eq!(config.min_hop, 3);
    assert_eq!(config.k_neighbors, 4);
    assert_eq!(config.norm_strategy, NormStrategy::MicroRMSNorm);
    settings.override_neighbors(Some(2));
    settings.override_neighbors(None);
    settings.model.norm_strategy = some("SphereNorm");
    settings.model.num_shards = None;
    settings.eviction = EvictionSection { subnode_max: None };
    settings.train.dataset_path = None;
    settings.train.dataset_format = some("csv");
    let config = settings.to_core_config();
    assert_eq!(config.k_neighbors, 2);
    assert_eq!(config.norm_strategy, NormStrategy::SphereNormalization);
    assert_eq!(config.num_shards, 4);
    assert_eq!(config.subnode_max, 8);
    assert_eq!(settings.train.path(), "synthetic");
    assert_eq!(settings.train.format(), "csv");
}

#[test]
fn arguments_fall_back_on_paths_and_settings() {
    let mut args = ExportDatasetArgs {
        dataset: "markov".to_string(),
        batches: 5,
        output: "out.bin".to_string(),
        format: None,
        d_model: None,
        device: "cpu".to_string(),
    };
    assert_eq!(args.output_form(&some("BIN")), DatasetOutput::Bin);
    assert_eq!(args.output_form(&some("dat")), DatasetOutput::Jsonl);
    assert_eq!(args.output_form(&None), DatasetOutput::Jsonl);
    assert_eq!(args.dimension(None), 64);
    assert_eq!(args.dimension(Some(MicroBlockConfig::default())), 256);
    args.format = some("CSV");
    args.d_model = Some(16);
    assert_eq!(args.output_form(&some("bin")), DatasetOutput::Csv);
    assert_eq!(args.dimension(None), 16);

    let mut init = InitCheckpointArgs {
        config: "annp_config.toml".to_string(),
        output: "init.annpb".to_string(),
        format: None,
        k_neighbors: Some(4),
        device: "cpu".to_string(),
        seed: Some(4242),
    };
    assert!(init.use_binary(&None));
    assert!(init.use_binary(&some("Bin")));
    assert!(!init.use_binary(&some("json")));
    init.format = some("ANNPB");
    assert!(init.use_binary(&some("json")));
    init.format = some("binary");
    assert!(!init.use_binary(&None));
}

#[test]
fn lines_end_in_line_feeds() {
    let lines = |data: &[u8]| annp::text::read_lines(data);
    let texts = |list: &[&str]| list.iter().map(|t| t.to_string()).collect::<Vec<String>>();
    assert_eq!(lines(b"a\r\nb\n\nc"), (texts(&["a", "b", "", "c"]), true));
    assert_eq!(lines(b"a\n"), (texts(&["a"]), true));
    assert_eq!(lines(b"\r\n\r"), (texts(&["", "\r"]), true));
    assert_eq!(lines(b"a\r\r\n"), (texts(&["a\r"]), true));
    assert_eq!(lines(b""), (Vec::new(), true));
    assert_eq!(lines(b"a\n\xc3\nb"), (texts(&["a"]), false));
    let text = "x\u{e4}\n\r\n y \r\nz\r";
    let expected: Vec<String> = text.lines().map(|l| l.to_string()).collect();
    assert_eq!(lines(text.as_bytes()), (expected, true));
}
