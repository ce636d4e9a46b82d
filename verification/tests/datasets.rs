use annp::dataset::{
    chunk_ranges, csv_part_name, json_part_name, plan_dataset, synthetic_batch_count, DatasetFormat,
    DatasetPlan, DatasetStream, StreamAction,
};
use annp::json::{
    collect_items, extract_sample, json_items, load_json, load_jsonl, split_items, written_items,
    JsonNode, Sample, SplitError,
};
use annp::scalar::Scalar;
use annp::synthetic::{
    grammar_walk, pairs_for, pattern_mode, periodic_phases, random_token_hashes, random_tokens,
    recall_pairs, recall_row, recall_sequence, ring_neighbors, sequence_cells, token_dim_hash,
    token_hash_pairs, token_noise, PatternMode, RecallRow, FIRST_SALT, SECOND_SALT, SEQ_LEN,
};
use annp::tables::{
    blob_values, csv_fields, keep_readable, read_table, split_csv, stack_full, stack_rows,
    trimmed_fields, Cell,
};

fn scalar(x: f32) -> Scalar {
    Scalar::from_bits(x.to_bits())
}

fn scalars(values: &[f32]) -> Vec<Scalar> {
    values.iter().map(|&x| scalar(x)).collect()
}

fn strings(list: &[&str]) -> Vec<String> {
    list.iter().map(|s| s.to_string()).collect()
}

fn text_of(sample: &Sample) -> &str {
    match sample {
        Sample::Text(t) => t,
        _ => panic!("no text"),
    }
}

#[test]
fn formats_go_by_many_names() {
    let names = [
        ("jsonl", DatasetFormat::Jsonl),
        ("CSV", DatasetFormat::Csv),
        ("db", DatasetFormat::Sqlite),
        ("SQLite", DatasetFormat::Sqlite),
        ("regular", DatasetFormat::DeterministicPeriodic),
        ("sine", DatasetFormat::DeterministicPeriodic),
        ("Fourier", DatasetFormat::PureHarmonic),
        ("copy", DatasetFormat::AssociativeRecall),
        ("lorenz", DatasetFormat::MackeyGlass),
        ("MARKOV", DatasetFormat::MarkovGrammar),
        ("white_noise", DatasetFormat::GaussianNoise),
        ("tokens", DatasetFormat::RandomTokens),
        ("composite", DatasetFormat::SyntheticPattern),
        ("synthetic", DatasetFormat::SyntheticPattern),
        ("json", DatasetFormat::Json),
        ("anything else", DatasetFormat::Json),
    ];
    for (name, format) in names {
        assert_eq!(DatasetFormat::parse(name), format, "{}", name);
    }
    assert!(DatasetFormat::RandomTokens.is_synthetic());
    assert!(!DatasetFormat::Sqlite.is_synthetic());
}

#[test]
fn datasets_are_planned() {
    assert_eq!(
        plan_dataset(DatasetFormat::MackeyGlass, false),
        DatasetPlan::Generate(DatasetFormat::MackeyGlass)
    );
    assert_eq!(plan_dataset(DatasetFormat::Csv, true), DatasetPlan::Split(DatasetFormat::Csv));
    assert_eq!(plan_dataset(DatasetFormat::Csv, false), DatasetPlan::Substitute);
    assert_eq!(synthetic_batch_count(Some(7), 8), 7);
    assert_eq!(synthetic_batch_count(None, 8), 32000);
    assert_eq!(synthetic_batch_count(None, 100), 50000);
}

#[test]
fn streams_hand_out_every_sample_once() {
    let sizes = [2usize, 3, 1];
    let mut stream = DatasetStream::chunked(sizes.len());
    let mut seen = Vec::new();
    let mut part = 0;
    loop {
        match stream.next() {
            StreamAction::Item(i) => seen.push((part, i)),
            StreamAction::LoadChunk(i) => {
                part = i;
                stream.load_next_chunk(sizes[i]);
                match stream.first_of_chunk() {
                    StreamAction::Item(i) => seen.push((part, i)),
                    _ => break,
                }
            }
            _ => break,
        }
    }
    assert_eq!(seen, vec![(0, 0), (0, 1), (1, 0), (1, 1), (1, 2), (2, 0)]);

    let mut made_up = DatasetStream::synthetic(DatasetFormat::GaussianNoise, 2);
    let format = DatasetFormat::GaussianNoise;
    assert_eq!(made_up.next(), StreamAction::Generate { format, batch: 0 });
    assert_eq!(made_up.next(), StreamAction::Generate { format, batch: 1 });
    assert_eq!(made_up.next(), StreamAction::End);

    let mut held = DatasetStream::buffered(1);
    assert_eq!(held.next(), StreamAction::Item(0));
    assert_eq!(held.next(), StreamAction::End);
}

#[test]
fn an_empty_part_ends_a_stream() {
    let mut stream = DatasetStream::chunked(2);
    assert_eq!(stream.next(), StreamAction::LoadChunk(0));
    stream.load_next_chunk(0);
    assert_eq!(stream.first_of_chunk(), StreamAction::End);
}

#[test]
fn lists_are_cut_into_parts() {
    assert_eq!(chunk_ranges(7, 3), vec![(0, 3), (3, 6), (6, 7)]);
    assert_eq!(chunk_ranges(6, 3), vec![(0, 3), (3, 6)]);
    assert!(chunk_ranges(0, 3).is_empty());
    assert_eq!(json_part_name(12), "chunk_00012.jsonl");
    assert_eq!(json_part_name(123456), "chunk_123456.jsonl");
    assert_eq!(csv_part_name("data.csv", 3), "data.csv_chunk_3.csv");
}

#[test]
fn samples_are_found_in_json() {
    let content = r#"[
        {"input_text": "one", "text": "two"},
        {"text": "three"},
        {"content": "four"},
        {"tokens": [5, 6.5, 7, "x"]},
        {"embeddings": [[1.0, 2.0], [3, "y"]]},
        {"embedding": [0.5, 0.25, 0.125, 0.0]},
        {"embeddings": [[1.0], [2.0]]},
        {"other": 1},
        17
    ]"#;
    let samples = load_json(content.as_bytes(), 2).unwrap();
    assert_eq!(samples.len(), 6);
    assert_eq!(text_of(&samples[0]), "one");
    assert_eq!(text_of(&samples[1]), "three");
    assert_eq!(text_of(&samples[2]), "four");
    match &samples[3] {
        Sample::Ids(ids) => assert_eq!(ids, &vec![5, 7]),
        _ => panic!("no tokens"),
    }
    let bits = |values: &[f64]| values.iter().map(|x| x.to_bits()).collect::<Vec<u64>>();
    match &samples[4] {
        Sample::Rows { seq_len, values } => {
            assert_eq!(*seq_len, 2);
            assert_eq!(values, &bits(&[1.0, 2.0, 3.0, 0.0]));
        }
        _ => panic!("no rows"),
    }
    match &samples[5] {
        Sample::Rows { seq_len, values } => {
            assert_eq!(*seq_len, 2);
            assert_eq!(values, &bits(&[0.5, 0.25, 0.125, 0.0]));
        }
        _ => panic!("no rows"),
    }
}

#[test]
fn other_fields_stand_in_for_an_embedding() {
    let content = r#"[
        {"embedding": null, "tokens": [7]},
        {"embedding": [1.0, 2.0, 3.0], "tokens": [8, 9]},
        {"embedding": "x", "embeddings": [[1.5, 2.5]]},
        {"embedding": [[0.5, 1.0]], "tokens": [10]},
        {"embedding": [], "embeddings": 1, "tokens": [11]}
    ]"#;
    let samples = load_json(content.as_bytes(), 2).unwrap();
    assert_eq!(samples.len(), 4);
    let bits = |values: &[f64]| values.iter().map(|x| x.to_bits()).collect::<Vec<u64>>();
    let expected_ids = [Some(vec![7]), Some(vec![8, 9]), None, None];
    let expected_rows = [None, None, Some(bits(&[1.5, 2.5])), Some(bits(&[0.5, 1.0]))];
    for (i, sample) in samples.iter().enumerate() {
        match sample {
            Sample::Ids(ids) => assert_eq!(Some(ids), expected_ids[i].as_ref()),
            Sample::Rows { seq_len, values } => {
                assert_eq!(*seq_len, 1);
                assert_eq!(Some(values), expected_rows[i].as_ref());
            }
            Sample::Text(_) => panic!("no text"),
        }
    }
}

#[test]
fn samples_are_taken_out_of_a_tree() {
    let node = JsonNode::Record(vec![(
        "tokens".to_string(),
        JsonNode::List(vec![JsonNode::Number {
            integer: Some(-1),
            double: None,
            text: "-1".to_string(),
        }]),
    )]);
    match extract_sample(&node, 4) {
        Some(Sample::Ids(ids)) => assert_eq!(ids, vec![u32::MAX]),
        _ => panic!("no tokens"),
    }
    assert!(extract_sample(&JsonNode::Null, 4).is_none());
}

#[test]
fn lines_stand_in_for_a_list() {
    let lines = strings(&["  {\"text\": \"a\"} ", "", "   ", "not json", "{\"text\": \"b\"}"]);
    let whole = lines.join("\n");
    let samples = load_json(whole.as_bytes(), 4).unwrap();
    assert_eq!(samples.len(), 2);
    assert_eq!(text_of(&samples[1]), "b");
    let again = load_jsonl(lines.join("\r\n").as_bytes(), 4).unwrap();
    assert_eq!(again.len(), 2);
    assert_eq!(text_of(&again[0]), "a");
}

#[test]
fn items_are_split_into_parts() {
    let content = "[{\"b\": 1, \"a\": [1, 2]}, 3, \"x\"]".to_string();
    let items = collect_items(content.as_bytes());
    assert_eq!(items.len(), 3);
    assert_eq!(items[1], "3");
    assert_eq!(items[2], "\"x\"");
    assert_eq!(split_items(&items[1..].to_vec(), 1), Ok(strings(&["3\n", "\"x\"\n"])));
    assert_eq!(split_items(&items[1..].to_vec(), 5), Ok(strings(&["3\n\"x\"\n"])));
    assert_eq!(collect_items(b"[1, 2]\noops\n  7 \n"), strings(&["1", "2", "7"]));
    // an empty list gives no item, and neither does its line
    assert!(collect_items(b"[]").is_empty());
    // lines count up to the first that is no text
    assert_eq!(collect_items(b"1\n2\n\xff\n3\n"), strings(&["1", "2"]));
    assert_eq!(split_items(&Vec::new(), 5), Err(SplitError::NoItems));
}

#[test]
fn a_value_that_is_no_list_is_one_item() {
    assert_eq!(written_items(&JsonNode::Null), strings(&["null"]));
    assert!(written_items(&JsonNode::List(Vec::new())).is_empty());
    let pair = JsonNode::Record(vec![
        ("b".to_string(), JsonNode::Bool(true)),
        ("c".to_string(), JsonNode::Text("x\"y".to_string())),
    ]);
    assert_eq!(written_items(&pair), strings(&["{\"b\":true,\"c\":\"x\\\"y\"}"]));
    assert_eq!(json_items(" { \"a\" : [ 1 , 2 ] } "), Some(strings(&["{\"a\":[1,2]}"])));
    assert_eq!(json_items("[ 1 , [ 2 ] ]"), Some(strings(&["1", "[2]"])));
    assert_eq!(json_items("[1"), None);
}

#[test]
fn numbers_are_written_as_they_were_read() {
    let text = "[18446744073709551615,-9223372036854775808,0,-0.0,0.1,1e+300,1.5,-7]";
    let whole: serde_json::Value = serde_json::from_str(text).unwrap();
    let expected: Vec<String> =
        whole.as_array().unwrap().iter().map(|v| v.to_string()).collect();
    assert_eq!(json_items(text), Some(expected.clone()));
    assert_eq!(expected[0], "18446744073709551615");
    assert_eq!(expected[3], "-0.0");
}

#[test]
fn files_that_are_no_text_are_refused() {
    assert!(load_json(b"[1, \xff]", 2).is_none());
    assert!(load_jsonl(b"{\"text\": \"a\"}\n\xff\n", 2).is_none());
    assert_eq!(load_jsonl(b"{\"text\": \"\xc3\xa4\"}\n", 2).unwrap().len(), 1);
    assert_eq!(load_jsonl(b"", 2).unwrap().len(), 0);
}

#[test]
fn made_up_datasets_end_for_ever() {
    let format = DatasetFormat::parse("Markov");
    assert!(format.is_synthetic());
    for path_exists in [false, true] {
        assert_eq!(plan_dataset(format, path_exists), DatasetPlan::Generate(format));
    }
    let mut stream = DatasetStream::synthetic(format, 5);
    for batch in 0..5 {
        assert_eq!(stream.next(), StreamAction::Generate { format, batch });
    }
    for _ in 0..5 {
        assert_eq!(stream.next(), StreamAction::End);
    }
}

#[test]
fn hashes_tell_their_arguments_apart() {
    let base = token_dim_hash(7, 3, FIRST_SALT);
    assert_ne!(token_dim_hash(8, 3, FIRST_SALT), base);
    assert_ne!(token_dim_hash(7, 4, FIRST_SALT), base);
    assert_ne!(token_dim_hash(7, 3, SECOND_SALT), base);
    for (first, second) in token_hash_pairs(7, 64) {
        assert_ne!(first, second);
    }
}

#[test]
fn tables_hold_text_or_numbers() {
    let data = b"text,f0,f1\nhello , world,3\n1.5, 2.5 ,3.5\n,,\n";
    let fields = csv_fields(data).unwrap();
    assert_eq!(fields[0], strings(&["hello", "world", "3"]));
    assert_eq!(fields[1], strings(&["1.5", "2.5", "3.5"]));
    let rows: Vec<Vec<Cell>> = fields
        .iter()
        .map(|row| {
            row.iter()
                .map(|f| match f.parse::<f32>() {
                    Ok(x) => Cell::Number(scalar(x)),
                    Err(_) => Cell::Text(f.clone()),
                })
                .collect()
        })
        .collect();
    let content = read_table(&rows);
    assert_eq!(content.texts, strings(&["hello world"]));
    assert_eq!(content.numbers, vec![scalars(&[1.5, 2.5, 3.5])]);
    // a record of another length makes the whole table unreadable
    assert!(csv_fields(b"a,b\n1,2\n1,2,3\n").is_none());
    assert!(trimmed_fields(&vec![Some(strings(&[" x "])), None]).is_none());
}

#[test]
fn rows_are_stacked_into_sequences() {
    let rows: Vec<Vec<Scalar>> = (0..9).map(|i| scalars(&[i as f32, 0.5, 9.0])).collect();
    let stacked = stack_rows(&rows, 2);
    assert_eq!(stacked.len(), 2);
    assert_eq!(stacked[0].len(), 16);
    assert_eq!(stacked[1], scalars(&[8.0, 0.5]));
    let padded = stack_rows(&vec![scalars(&[1.0])], 3);
    assert_eq!(padded, vec![scalars(&[1.0, 0.0, 0.0])]);
    let full = stack_full(&rows, 2);
    assert_eq!(full.len(), 1);
    assert_eq!(full[0], stacked[0]);
    let mut blob = 1.5f32.to_le_bytes().to_vec();
    blob.extend_from_slice(&(-2.0f32).to_le_bytes());
    blob.push(7);
    assert_eq!(blob_values(&blob), scalars(&[1.5, -2.0]));
}

#[test]
fn tables_are_split_with_their_header() {
    let data = b"a,b\n1,2\nbad\n3,\"x,y\"\n5,6\n";
    let parts = split_csv(data, 2).unwrap();
    assert_eq!(parts.total, 3);
    assert_eq!(parts.parts.len(), 2);
    assert_eq!(parts.parts[0], b"a,b\n1,2\n3,\"x,y\"\n".to_vec());
    assert_eq!(parts.parts[1], b"a,b\n5,6\n".to_vec());
    assert_eq!(keep_readable(&vec![None, Some(strings(&["q"]))]), vec![strings(&["q"])]);
}

#[test]
fn hashes_tell_tokens_and_dimensions_apart() {
    let reference = |token_id: u32, idx: usize, salt: u64| {
        let mut z = (token_id as u64)
            .wrapping_mul(0x9E3779B97F4A7C15)
            .wrapping_add((idx as u64).wrapping_mul(0xBF58476D1CE4E5B9))
            .wrapping_add(salt);
        z = (z ^ (z >> 30)).wrapping_mul(0xBF58476D1CE4E5B9);
        z = (z ^ (z >> 27)).wrapping_mul(0x94D049BB133111EB);
        z ^ (z >> 31)
    };
    for token in [1u32, 2, 31999] {
        for idx in [0usize, 1, 63] {
            assert_eq!(
                token_dim_hash(token, idx, FIRST_SALT),
                reference(token, idx, 0x123456789ABCDEF0)
            );
        }
    }
    let pairs = token_hash_pairs(5, 5);
    assert_eq!(pairs.len(), 3);
    assert_eq!(pairs[2].1, reference(5, 2, SECOND_SALT));
    let hashes = random_token_hashes(&vec![5, 6], 5);
    assert_eq!(hashes[0], pairs);
    assert_ne!(hashes[1], pairs);
}

#[test]
fn drawn_tokens_belong_to_the_vocabulary() {
    let tokens = random_tokens(2000);
    assert_eq!(tokens.len(), 2000);
    assert!(tokens.iter().all(|&t| (1..32000).contains(&t)));
    assert!(tokens.iter().any(|&t| t != tokens[0]));
}

#[test]
fn token_noise_is_a_xorshift() {
    let noise = token_noise(42, 64);
    let mut seed = 42u64.wrapping_mul(0x9E3779B97F4A7C15).wrapping_add(1);
    for d in 0..64 {
        seed ^= seed << 13;
        seed ^= seed >> 7;
        seed ^= seed << 17;
        assert_eq!(noise[d] as u64, seed & 0xFFFFFFFF);
    }
    assert_eq!(noise, token_noise(42, 64));
    assert_ne!(noise, token_noise(43, 64));
}

#[test]
fn periodic_data_repeats() {
    let phases = periodic_phases(3, 20);
    assert_eq!(phases.len(), 64 * 20);
    for t in 0..64u64 {
        for d in 0..20u64 {
            let period = 4 + (d % 16) * 2;
            assert_eq!(phases[(t * 20 + d) as usize], ((3 * 64 + t) % period, period));
        }
    }
}

#[test]
fn keys_are_recalled_in_order() {
    let keys: Vec<Vec<Scalar>> = (0..4).map(|k| scalars(&[k as f32, 10.0 + k as f32])).collect();
    let background = scalars(&[0.1; 128]);
    let data = recall_sequence(&keys, &background, 2);
    assert_eq!(data[8..16], data[90..98]);
    assert_eq!(data[8..10], keys[0][..]);
    assert_eq!(data[88..90], scalars(&[2.0, 2.0])[..]);
    assert_eq!(data[0..2], background[0..2]);
    assert_eq!(recall_row(7), RecallRow::Key(3));
    assert_eq!(recall_row(44), RecallRow::Cue);
    assert_eq!(recall_row(48), RecallRow::Recall(3));
    assert_eq!(recall_row(49), RecallRow::Background);
    assert_eq!(recall_pairs(64), vec![(4, 44), (5, 45), (6, 46), (7, 47)]);
    assert!(recall_pairs(47).is_empty());
}

#[test]
fn grammar_walks_by_one_or_three() {
    let mut state = 0;
    let walk = grammar_walk(&mut state, &scalars(&[0.0, 0.69, 0.7, 0.99]));
    assert_eq!(walk, vec![1, 2, 5, 0]);
    assert_eq!(state, 0);
    assert_eq!(pattern_mode(4), PatternMode::Harmonic);
    assert_eq!(pattern_mode(5), PatternMode::Recall);
    assert_eq!(pattern_mode(6), PatternMode::Nested);
    assert_eq!(pattern_mode(7), PatternMode::Burst);
    assert_eq!(ring_neighbors(0, 5), (4, 1));
    assert_eq!(ring_neighbors(4, 5), (3, 0));
    assert_eq!(ring_neighbors(0, 1), (0, 0));
}

#[test]
fn made_up_sequences_have_equal_rows() {
    for d_model in [0, 1, 3, 20] {
        let cells = sequence_cells(d_model);
        assert_eq!(cells.len(), SEQ_LEN * d_model);
        for (c, &(t, d)) in cells.iter().enumerate() {
            assert!(t < SEQ_LEN && d < d_model);
            assert_eq!(c, t * d_model + d);
        }
        assert_eq!(periodic_phases(5, d_model).len(), cells.len());
        let keys = vec![scalars(&vec![1.0; d_model]); 4];
        let background = scalars(&vec![0.5; cells.len()]);
        assert_eq!(recall_sequence(&keys, &background, d_model).len(), cells.len());
        assert!(2 * pairs_for(cells.len()) >= cells.len());
        let rows = random_token_hashes(&random_tokens(SEQ_LEN), d_model);
        assert_eq!(rows.len(), SEQ_LEN);
        assert!(rows.iter().all(|row| 2 * row.len() >= d_model));
    }
}
