//! Settings: what a configuration file and a command line ask for.
use crate::config::{default_config, MicroBlockConfig, NormStrategy};
use crate::scalar::Scalar;
use crate::text::{ascii_lowercased, contains_text, has_text, lowercased, same_text, to_lowercase};
use vstd::prelude::*;

verus! {

/// A configuration file.
#[derive(Debug)]
pub struct AnnpTomlConfig {
    pub model: ModelSection,
    pub eviction: EvictionSection,
    pub train: StageConfig,
}

/// Shape of the network.
#[derive(Debug)]
pub struct ModelSection {
    pub num_shards: Option<usize>,
    pub mesh_rows: usize,
    pub mesh_cols: usize,
    pub d_head: usize,
    pub ffn_expansion: usize,
    pub initial_energy: Scalar,
    pub max_hop: u16,
    pub min_hop: u16,
    pub k_neighbors: Option<usize>,
    /// "RMSNorm" or "SphereNorm".
    pub norm_strategy: Option<String>,
}

/// Limits on growth.
#[derive(Debug, Clone, Copy)]
pub struct EvictionSection {
    pub subnode_max: Option<usize>,
}

/// Training.
#[derive(Debug)]
pub struct StageConfig {
    pub epochs: usize,
    pub learning_rate: Scalar,
    pub dataset_path: Option<String>,
    pub dataset_format: Option<String>,
    pub synthetic_batches: Option<usize>,
    pub chunk_size: Option<usize>,
}

/// The text given, or `otherwise`.
pub open spec fn text_or(text: Option<String>, otherwise: Seq<char>) -> Seq<char> {
    match text {
        Some(t) => t@,
        None => otherwise,
    }
}

/// The strategy that a name in lower case stands for.
pub open spec fn strategy_of(name: Seq<char>) -> NormStrategy {
    if contains_text(name, "sphere"@) {
        NormStrategy::SphereNormalization
    } else {
        NormStrategy::MicroRMSNorm
    }
}

/// The strategy that a name in lower case stands for.
pub fn strategy_named(name: &str) -> (r: NormStrategy)
    ensures
        r == strategy_of(name@),
{
    if has_text(name, "sphere") {
        NormStrategy::SphereNormalization
    } else {
        NormStrategy::MicroRMSNorm
    }
}

fn number_or(value: Option<usize>, otherwise: usize) -> (r: usize)
    ensures
        r == (match value {
            Some(n) => n,
            None => otherwise,
        }),
{
    match value {
        Some(n) => n,
        None => otherwise,
    }
}

impl StageConfig {
    /// Where the data is read from: the path given, or the synthetic dataset.
    pub fn path(&self) -> (r: &str)
        ensures
            r@ == text_or(self.dataset_path, "synthetic"@),
    {
        match &self.dataset_path {
            Some(t) => t.as_str(),
            None => "synthetic",
        }
    }

    /// The name of the data's kind: the one given, or the synthetic dataset.
    pub fn format(&self) -> (r: &str)
        ensures
            r@ == text_or(self.dataset_format, "synthetic"@),
    {
        match &self.dataset_format {
            Some(t) => t.as_str(),
            None => "synthetic",
        }
    }
}

impl AnnpTomlConfig {
    /// The configuration that the sections ask for, with the strategy of normalisation
    /// given. What no section speaks of is as in the default configuration.
    pub open spec fn asked(self, norm_strategy: NormStrategy) -> MicroBlockConfig {
        let m = self.model;
        let d = default_config();
        MicroBlockConfig {
            num_shards: match m.num_shards {
                Some(n) => n,
                None => 4,
            },
            mesh_rows: m.mesh_rows,
            mesh_cols: m.mesh_cols,
            d_head: m.d_head,
            ffn_expansion: m.ffn_expansion,
            initial_energy: m.initial_energy,
            max_hop: m.max_hop,
            min_hop: m.min_hop,
            subnode_max: match self.eviction.subnode_max {
                Some(n) => n,
                None => 8,
            },
            k_neighbors: match m.k_neighbors {
                Some(n) => n,
                None => d.k_neighbors,
            },
            norm_strategy,
            ..d
        }
    }

    /// The configuration that the sections ask for.
    pub fn to_core_config(&self) -> (r: MicroBlockConfig)
        ensures
            r == self.asked(
                match self.model.norm_strategy {
                    Some(name) => strategy_of(lowercased(name@)),
                    None => NormStrategy::MicroRMSNorm,
                },
            ),
            self.model.norm_strategy matches Some(name) ==> vstd::utf8::is_ascii_chars(name@)
                ==> r == self.asked(strategy_of(ascii_lowercased(name@))),
    {
        let norm_strategy: NormStrategy = match &self.model.norm_strategy {
            Some(name) => {
                let lower: String = to_lowercase(name.as_str());
                strategy_named(lower.as_str())
            },
            None => NormStrategy::MicroRMSNorm,
        };
        self.with_strategy(norm_strategy)
    }

    /// The configuration that the sections ask for, with the strategy of normalisation
    /// given.
    pub fn with_strategy(&self, norm_strategy: NormStrategy) -> (r: MicroBlockConfig)
        ensures
            r == self.asked(norm_strategy),
    {
        let d: MicroBlockConfig = MicroBlockConfig::default();
        MicroBlockConfig {
            num_shards: number_or(self.model.num_shards, 4),
            mesh_rows: self.model.mesh_rows,
            mesh_cols: self.model.mesh_cols,
            d_head: self.model.d_head,
            ffn_expansion: self.model.ffn_expansion,
            initial_energy: self.model.initial_energy,
            max_hop: self.model.max_hop,
            min_hop: self.model.min_hop,
            subnode_max: number_or(self.eviction.subnode_max, 8),
            neurogenesis_threshold: d.neurogenesis_threshold,
            progressive_hardening_factor: d.progressive_hardening_factor,
            weight_decay: d.weight_decay,
            ingress_ratio: d.ingress_ratio,
            k_neighbors: number_or(self.model.k_neighbors, d.k_neighbors),
            health_base: d.health_base,
            queue_backpressure: d.queue_backpressure,
            step_safety_margin: d.step_safety_margin,
            norm_strategy,
        }
    }

    /// Replaces the number of neighbors where one is given.
    pub fn override_neighbors(&mut self, k_neighbors: Option<usize>)
        ensures
            *final(self) == (AnnpTomlConfig {
                model: ModelSection {
                    k_neighbors: match k_neighbors {
                        Some(k) => Some(k),
                        None => old(self).model.k_neighbors,
                    },
                    ..old(self).model
                },
                ..*old(self)
            }),
    {
        if let Some(k) = k_neighbors {
            self.model.k_neighbors = Some(k);
        }
    }
}

impl Default for AnnpTomlConfig {
    fn default() -> (r: Self)
        ensures
            r.model.num_shards == Some(4usize),
            r.model.mesh_rows == 10,
            r.model.mesh_cols == 10,
            r.model.d_head == 64,
            r.model.ffn_expansion == 8,
            r.model.initial_energy == Scalar::one(),
            r.model.max_hop == 100,
            r.model.min_hop == 3,
            r.model.k_neighbors is None,
            r.model.norm_strategy matches Some(t) && t@ == "RMSNorm"@,
            r.eviction.subnode_max == Some(8usize),
            r.train.epochs == 8,
            r.train.learning_rate == (Scalar { bits: 0x3ca3_d70a }),
            r.train.dataset_path matches Some(t) && t@ == "synthetic"@,
            r.train.dataset_format matches Some(t) && t@ == "synthetic"@,
            r.train.synthetic_batches is None,
            r.train.chunk_size is None,
    {
        AnnpTomlConfig {
            model: ModelSection {
                num_shards: Some(4),
                mesh_rows: 10,
                mesh_cols: 10,
                d_head: 64,
                ffn_expansion: 8,
                initial_energy: Scalar::one(),
                max_hop: 100,
                min_hop: 3,
                k_neighbors: None,
                norm_strategy: Some("RMSNorm".to_owned()),
            },
            eviction: EvictionSection { subnode_max: Some(8) },
            train: StageConfig {
                epochs: 8,
                learning_rate: Scalar { bits: 0x3ca3_d70a },  // 0.02
                dataset_path: Some("synthetic".to_owned()),
                dataset_format: Some("synthetic".to_owned()),
                synthetic_batches: None,
                chunk_size: None,
            },
        }
    }
}

/// What the export of a dataset is asked for.
#[derive(Debug)]
pub struct ExportDatasetArgs {
    /// Dataset name or generator.
    pub dataset: String,
    /// Number of sequence batches to export.
    pub batches: usize,
    /// Output file path.
    pub output: String,
    /// Output format, by the path's extension if there is none.
    pub format: Option<String>,
    /// Embedding dimension, from the configuration or 64 if there is none.
    pub d_model: Option<usize>,
    /// Target device.
    pub device: String,
}

/// Forms in which a dataset is written.
#[derive(Debug, Clone, Copy, PartialEq, Eq, Structural)]
pub enum DatasetOutput {
    Csv,
    Json,
    Bin,
    Jsonl,
}

/// The form that a name in lower case stands for.
pub open spec fn output_of(name: Seq<char>) -> DatasetOutput {
    if name == "csv"@ {
        DatasetOutput::Csv
    } else if name == "json"@ {
        DatasetOutput::Json
    } else if name == "bin"@ {
        DatasetOutput::Bin
    } else {
        DatasetOutput::Jsonl
    }
}

/// The form that a name in lower case stands for.
pub fn output_named(name: &str) -> (r: DatasetOutput)
    ensures
        r == output_of(name@),
{
    if same_text(name, "csv") {
        DatasetOutput::Csv
    } else if same_text(name, "json") {
        DatasetOutput::Json
    } else if same_text(name, "bin") {
        DatasetOutput::Bin
    } else {
        DatasetOutput::Jsonl
    }
}

/// The name of a format: the one given, or the extension, or `otherwise`.
pub open spec fn format_name(format: Option<String>, extension: Option<String>, otherwise: Seq<char>) -> Seq<
    char,
> {
    match format {
        Some(f) => f@,
        None => text_or(extension, otherwise),
    }
}

/// The embedding dimension of an export: the one given, or that of the configuration, or 64.
pub open spec fn export_dimension(d_model: Option<usize>, config: Option<MicroBlockConfig>) -> int {
    match (d_model, config) {
        (Some(d), _) => d as int,
        (None, Some(c)) => c.num_shards * c.d_head,
        (None, None) => 64,
    }
}

impl ExportDatasetArgs {
    /// The form to write in. `extension` is that of the output path.
    pub fn output_form(&self, extension: &Option<String>) -> (r: DatasetOutput)
        ensures
            r == output_of(lowercased(format_name(self.format, *extension, "jsonl"@))),
            vstd::utf8::is_ascii_chars(format_name(self.format, *extension, "jsonl"@)) ==> r
                == output_of(ascii_lowercased(format_name(self.format, *extension, "jsonl"@))),
    {
        let name: &str = match &self.format {
            Some(f) => f.as_str(),
            None => match extension {
                Some(e) => e.as_str(),
                None => "jsonl",
            },
        };
        let lower: String = to_lowercase(name);
        output_named(lower.as_str())
    }

    /// The embedding dimension: the one given, or that of the configuration, or 64.
    pub fn dimension(&self, config: Option<MicroBlockConfig>) -> (r: usize)
        requires
            self.d_model is None ==> (config matches Some(c) ==> c.num_shards * c.d_head
                <= usize::MAX),
        ensures
            r == export_dimension(self.d_model, config),
    {
        match self.d_model {
            Some(d) => d,
            None => match config {
                Some(c) => c.d_model(),
                None => 64,
            },
        }
    }
}

/// What a fresh checkpoint is asked for.
#[derive(Debug)]
pub struct InitCheckpointArgs {
    /// Path to the configuration file.
    pub config: String,
    /// Destination path.
    pub output: String,
    /// Checkpoint format, by the path's extension if there is none.
    pub format: Option<String>,
    /// Number of neighbors in place of the configured one.
    pub k_neighbors: Option<usize>,
    /// Target compute device.
    pub device: String,
    /// Seed for a reproducible start.
    pub seed: Option<u64>,
}

/// Whether a fresh checkpoint with this format name, in lower case, is binary.
pub open spec fn names_binary(name: Seq<char>) -> bool {
    name == "annpb"@ || name == "bin"@
}

/// Whether a fresh checkpoint with this format name, in lower case, is binary.
pub fn is_binary_name(name: &str) -> (r: bool)
    ensures
        r == names_binary(name@),
{
    same_text(name, "annpb") || same_text(name, "bin")
}

/// A text in lower case, where there is one.
pub open spec fn lowered(text: Option<String>) -> Option<Seq<char>> {
    match text {
        Some(t) => Some(lowercased(t@)),
        None => None,
    }
}

/// Whether a fresh checkpoint is binary, given the names of its format and of the extension of
/// its path in lower case, where there are any.
pub open spec fn starts_binary(format: Option<Seq<char>>, extension: Option<Seq<char>>) -> bool {
    match (format, extension) {
        (Some(f), _) => names_binary(f),
        (None, Some(e)) => names_binary(e),
        (None, None) => true,
    }
}

impl InitCheckpointArgs {
    /// Whether the checkpoint is to be binary: as the format says, or else as the extension of
    /// the output path says, or else it is.
    pub fn use_binary(&self, extension: &Option<String>) -> (r: bool)
        ensures
            r == starts_binary(lowered(self.format), lowered(*extension)),
            self.format matches Some(f) ==> vstd::utf8::is_ascii_chars(f@) ==> r == names_binary(
                ascii_lowercased(f@),
            ),
            self.format is None ==> (*extension matches Some(e) ==> vstd::utf8::is_ascii_chars(e@)
                ==> r == names_binary(ascii_lowercased(e@))),
    {
        match &self.format {
            Some(f) => {
                let lower: String = to_lowercase(f.as_str());
                is_binary_name(lower.as_str())
            },
            None => match extension {
                Some(e) => {
                    let lower: String = to_lowercase(e.as_str());
                    is_binary_name(lower.as_str())
                },
                None => true,
            },
        }
    }
}

/// Whether a checkpoint path with this extension names a binary file.
pub open spec fn binary_extension(extension: Option<String>) -> bool {
    extension matches Some(e) && e@ == "annpb"@
}

/// Whether a checkpoint path with this extension names a binary file. The extension is taken
/// as it is written.
pub fn is_binary_path(extension: &Option<String>) -> (r: bool)
    ensures
        r == binary_extension(*extension),
{
    match extension {
        Some(e) => same_text(e.as_str(), "annpb"),
        None => false,
    }
}

/// The extension of a checkpoint's backup.
pub open spec fn backup_of(extension: Option<String>) -> Seq<char> {
    text_or(extension, "annpb"@) + ".bak"@
}

/// The extension of a checkpoint's backup.
pub fn backup_extension(extension: &Option<String>) -> (r: String)
    ensures
        r@ == backup_of(*extension),
        r@ == text_or(*extension, "annpb"@) + ".bak"@,
{
    let mut r: String = match extension {
        Some(e) => e.clone(),
        None => "annpb".to_owned(),
    };
    r.append(".bak");
    r
}

/// A backup never has the extension of the checkpoint itself.
pub proof fn law_backup_is_another_file(extension: Option<String>)
    ensures
        text_or(extension, "annpb"@) + ".bak"@ != text_or(extension, "annpb"@),
{
    reveal_strlit(".bak");
    let e = text_or(extension, "annpb"@);
    assert((e + ".bak"@).len() != e.len());
}

/// A configuration takes from the file what the file says, number by number, and stands by the
/// defaults where it says nothing: four shards, eight subnodes, and for the rest what the
/// default configuration has.
pub proof fn law_files_decide_what_they_name(c: AnnpTomlConfig, norm_strategy: NormStrategy)
    ensures
        ({
            let r = c.asked(norm_strategy);
            let d = default_config();
            &&& r.mesh_rows == c.model.mesh_rows
            &&& r.mesh_cols == c.model.mesh_cols
            &&& r.d_head == c.model.d_head
            &&& r.ffn_expansion == c.model.ffn_expansion
            &&& r.initial_energy == c.model.initial_energy
            &&& r.max_hop == c.model.max_hop
            &&& r.min_hop == c.model.min_hop
            &&& r.norm_strategy == norm_strategy
            &&& c.model.num_shards matches Some(n) ==> r.num_shards == n
            &&& c.model.num_shards is None ==> r.num_shards == 4
            &&& c.model.k_neighbors matches Some(n) ==> r.k_neighbors == n
            &&& c.model.k_neighbors is None ==> r.k_neighbors == d.k_neighbors
            &&& c.eviction.subnode_max matches Some(n) ==> r.subnode_max == n
            &&& c.eviction.subnode_max is None ==> r.subnode_max == 8
            &&& r.neurogenesis_threshold == d.neurogenesis_threshold
            &&& r.progressive_hardening_factor == d.progressive_hardening_factor
            &&& r.weight_decay == d.weight_decay
            &&& r.ingress_ratio == d.ingress_ratio
            &&& r.health_base == d.health_base
            &&& r.queue_backpressure == d.queue_backpressure
            &&& r.step_safety_margin == d.step_safety_margin
        }),
{
}

/// A name asks for the sphere wherever it has that word in it, and a name too short for the
/// word never does.
pub proof fn law_the_sphere_is_asked_for_by_name(front: Seq<char>, rest: Seq<char>, name: Seq<char>)
    ensures
        strategy_of(front + "sphere"@ + rest) is SphereNormalization,
        name.len() < 6 ==> strategy_of(name) is MicroRMSNorm,
{
    reveal_strlit("sphere");
    assert("sphere"@.len() == 6);
    let whole = front + "sphere"@ + rest;
    assert(whole.subrange(front.len() as int, front.len() as int + 6) =~= "sphere"@);
}

/// Each form of output has one name, and every other name stands for lines of JSON.
pub proof fn law_names_of_outputs(name: Seq<char>)
    ensures
        output_of(name) is Csv <==> name == "csv"@,
        output_of(name) is Json <==> name == "json"@,
        output_of(name) is Bin <==> name == "bin"@,
        output_of(name) is Jsonl <==> name != "csv"@ && name != "json"@ && name != "bin"@,
        names_binary(name) <==> name == "annpb"@ || name == "bin"@,
{
    reveal_strlit("csv");
    reveal_strlit("json");
    reveal_strlit("bin");
    assert("csv"@.len() == 3 && "csv"@[0] == 'c');
    assert("json"@.len() == 4);
    assert("bin"@.len() == 3 && "bin"@[0] == 'b');
}

/// What is given goes before what the path says, and that before what stands for nothing.
pub proof fn law_the_given_name_counts(format: String, extension: String, otherwise: Seq<char>)
    ensures
        format_name(Some(format), Some(extension), otherwise) == format@,
        format_name(Some(format), None, otherwise) == format@,
        format_name(None, Some(extension), otherwise) == extension@,
        format_name(None, None, otherwise) == otherwise,
        text_or(Some(format), otherwise) == format@,
        text_or(None, otherwise) == otherwise,
        binary_extension(Some(extension)) <==> extension@ == "annpb"@,
        !binary_extension(None),
{
}


/// The dimension that is given counts, whatever the configuration says. Without it, the
/// configuration's shards of its width make it up, and without that there are 64.
pub proof fn law_the_given_dimension_counts(d: usize, c: MicroBlockConfig)
    ensures
        export_dimension(Some(d), Some(c)) == d,
        export_dimension(Some(d), None) == d,
        export_dimension(None, Some(c)) == c.num_shards * c.d_head,
        export_dimension(None, None) == 64,
{
}

/// A format decides whether a fresh checkpoint is binary, whatever its path is called. Without
/// one the extension does, and without either it is binary. Its backup is named after it.
pub proof fn law_the_format_decides(f: Seq<char>, e: Option<Seq<char>>, x: Seq<char>, name: String)
    ensures
        starts_binary(Some(f), e) <==> f == "annpb"@ || f == "bin"@,
        starts_binary(None, Some(x)) <==> x == "annpb"@ || x == "bin"@,
        starts_binary(None, None),
        backup_of(Some(name)) == name@ + ".bak"@,
        backup_of(None) == "annpb"@ + ".bak"@,
{
}

} // verus!
