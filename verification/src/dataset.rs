//! Datasets: which ones there are and in what order their batches come.
use crate::text::{
    decimal, lowercased, padded, put_decimal, put_padded, same_text, to_lowercase,
};
use vstd::prelude::*;

verus! {

/// Kinds of datasets.
#[derive(Clone, Copy, Debug, PartialEq, Eq, Structural)]
pub enum DatasetFormat {
    Json,
    Jsonl,
    Csv,
    Sqlite,
    DeterministicPeriodic,
    PureHarmonic,
    AssociativeRecall,
    MackeyGlass,
    MarkovGrammar,
    GaussianNoise,
    RandomTokens,
    SyntheticPattern,
}

/// The kind that a name in lower case stands for. A name that is not known stands for JSON.
pub open spec fn format_named(name: Seq<char>) -> DatasetFormat {
    if name == "jsonl"@ {
        DatasetFormat::Jsonl
    } else if name == "csv"@ {
        DatasetFormat::Csv
    } else if name == "sqlite"@ || name == "db"@ {
        DatasetFormat::Sqlite
    } else if name == "periodic"@ || name == "regular"@ || name == "deterministic"@ || name
        == "sine"@ {
        DatasetFormat::DeterministicPeriodic
    } else if name == "harmonic"@ || name == "pure_harmonic"@ || name == "fourier"@ {
        DatasetFormat::PureHarmonic
    } else if name == "recall"@ || name == "associative"@ || name == "memory"@ || name == "copy"@ {
        DatasetFormat::AssociativeRecall
    } else if name == "chaos"@ || name == "chaotic"@ || name == "mackey_glass"@ || name
        == "lorenz"@ {
        DatasetFormat::MackeyGlass
    } else if name == "markov"@ || name == "grammar"@ || name == "graph"@ || name == "automaton"@ {
        DatasetFormat::MarkovGrammar
    } else if name == "noise"@ || name == "gaussian"@ || name == "random_noise"@ || name
        == "white_noise"@ {
        DatasetFormat::GaussianNoise
    } else if name == "random"@ || name == "randomtokens"@ || name == "tokens"@ {
        DatasetFormat::RandomTokens
    } else if name == "pattern"@ || name == "synthetic"@ || name == "composite"@ {
        DatasetFormat::SyntheticPattern
    } else {
        DatasetFormat::Json
    }
}

impl DatasetFormat {
    /// Whether the data is made up rather than read.
    pub open spec fn synthetic(self) -> bool {
        !(self is Json || self is Jsonl || self is Csv || self is Sqlite)
    }

    /// The kind that a name in lower case stands for.
    pub fn from_lowercase(name: &str) -> (r: Self)
        ensures
            r == format_named(name@),
    {
        if same_text(name, "jsonl") {
            DatasetFormat::Jsonl
        } else if same_text(name, "csv") {
            DatasetFormat::Csv
        } else if same_text(name, "sqlite") || same_text(name, "db") {
            DatasetFormat::Sqlite
        } else if same_text(name, "periodic") || same_text(name, "regular") || same_text(
            name,
            "deterministic",
        ) || same_text(name, "sine") {
            DatasetFormat::DeterministicPeriodic
        } else if same_text(name, "harmonic") || same_text(name, "pure_harmonic") || same_text(
            name,
            "fourier",
        ) {
            DatasetFormat::PureHarmonic
        } else if same_text(name, "recall") || same_text(name, "associative") || same_text(
            name,
            "memory",
        ) || same_text(name, "copy") {
            DatasetFormat::AssociativeRecall
        } else if same_text(name, "chaos") || same_text(name, "chaotic") || same_text(
            name,
            "mackey_glass",
        ) || same_text(name, "lorenz") {
            DatasetFormat::MackeyGlass
        } else if same_text(name, "markov") || same_text(name, "grammar") || same_text(
            name,
            "graph",
        ) || same_text(name, "automaton") {
            DatasetFormat::MarkovGrammar
        } else if same_text(name, "noise") || same_text(name, "gaussian") || same_text(
            name,
            "random_noise",
        ) || same_text(name, "white_noise") {
            DatasetFormat::GaussianNoise
        } else if same_text(name, "random") || same_text(name, "randomtokens") || same_text(
            name,
            "tokens",
        ) {
            DatasetFormat::RandomTokens
        } else if same_text(name, "pattern") || same_text(name, "synthetic") || same_text(
            name,
            "composite",
        ) {
            DatasetFormat::SyntheticPattern
        } else {
            DatasetFormat::Json
        }
    }

    /// The kind that a name stands for, in whatever case it is written.
    pub fn parse(s: &str) -> (r: Self)
        ensures
            r == format_named(lowercased(s@)),
            vstd::utf8::is_ascii_chars(s@) ==> r == format_named(crate::text::ascii_lowercased(s@)),
    {
        let name: String = to_lowercase(s);
        DatasetFormat::from_lowercase(name.as_str())
    }

    /// Whether the data is made up rather than read.
    pub fn is_synthetic(self) -> (r: bool)
        ensures
            r == self.synthetic(),
    {
        match self {
            DatasetFormat::Json => false,
            DatasetFormat::Jsonl => false,
            DatasetFormat::Csv => false,
            DatasetFormat::Sqlite => false,
            _ => true,
        }
    }
}

/// Batches of a synthetic dataset: the number asked for, or 500 per epoch and at least
/// 32000.
pub open spec fn batch_count(synthetic_batches: Option<usize>, epochs: int) -> int {
    match synthetic_batches {
        Some(n) => n as int,
        None => if epochs * 500 > 32000 {
            epochs * 500
        } else {
            32000
        },
    }
}

/// Batches of a synthetic dataset without a configuration.
pub const DEFAULT_BATCHES: usize = 32000;

/// Samples in one part of a large dataset without a configuration.
pub const DEFAULT_CHUNK_SIZE: usize = 8192;

/// Batches of a synthetic dataset.
pub fn synthetic_batch_count(synthetic_batches: Option<usize>, epochs: usize) -> (r: usize)
    requires
        epochs * 500 <= usize::MAX,
    ensures
        r == batch_count(synthetic_batches, epochs as int),
{
    match synthetic_batches {
        Some(n) => n,
        None => if epochs * 500 > 32000 {
            epochs * 500
        } else {
            32000
        },
    }
}

/// How the batches of a dataset are come by.
#[derive(Clone, Copy, Debug, PartialEq, Eq, Structural)]
pub enum DatasetPlan {
    /// They are made up one by one.
    Generate(DatasetFormat),
    /// The file is split into parts that are read one by one. Where it cannot be split it is
    /// read whole.
    Split(DatasetFormat),
    /// There is no such file: patterns are made up, all at once.
    Substitute,
}

/// How the batches of a dataset are come by.
pub open spec fn planned(format: DatasetFormat, path_exists: bool) -> DatasetPlan {
    if format.synthetic() {
        DatasetPlan::Generate(format)
    } else if path_exists {
        DatasetPlan::Split(format)
    } else {
        DatasetPlan::Substitute
    }
}

/// How the batches of a dataset are come by.
pub fn plan_dataset(format: DatasetFormat, path_exists: bool) -> (r: DatasetPlan)
    ensures
        r == planned(format, path_exists),
{
    if format.is_synthetic() {
        DatasetPlan::Generate(format)
    } else if path_exists {
        DatasetPlan::Split(format)
    } else {
        DatasetPlan::Substitute
    }
}

/// A dataset, read batch by batch.
#[derive(Clone, Copy, Debug, PartialEq, Eq, Structural)]
pub enum DatasetStream {
    /// Parts of a file. Of the current part `loaded` samples are held, and those before
    /// `cursor` have been handed out.
    Chunked { chunks: usize, current_chunk_idx: usize, loaded: usize, cursor: usize },
    /// Batches that are made up.
    Synthetic { format: DatasetFormat, total_batches: usize, current_batch: usize },
    /// Batches that are all held.
    Buffered { total: usize, cursor: usize },
}

/// What is to be done for the next batch.
#[derive(Clone, Copy, Debug, PartialEq, Eq, Structural)]
pub enum StreamAction {
    /// It is the sample of this index among those held.
    Item(usize),
    /// The part of this index has to be read first.
    LoadChunk(usize),
    /// It is to be made up.
    Generate { format: DatasetFormat, batch: usize },
    /// There is none.
    End,
}

impl DatasetStream {
    /// Nothing was handed out that is not there.
    pub open spec fn wf(self) -> bool {
        match self {
            DatasetStream::Chunked { chunks, current_chunk_idx, loaded, cursor } => {
                &&& cursor <= loaded
                &&& current_chunk_idx <= chunks
                &&& loaded > 0 ==> current_chunk_idx > 0
            },
            DatasetStream::Synthetic { format, total_batches, current_batch } => current_batch
                <= total_batches,
            DatasetStream::Buffered { total, cursor } => cursor <= total,
        }
    }

    /// A stream of `total_batches` made-up batches.
    pub fn synthetic(format: DatasetFormat, total_batches: usize) -> (r: Self)
        ensures
            r == (DatasetStream::Synthetic { format, total_batches, current_batch: 0 }),
            r.wf(),
    {
        DatasetStream::Synthetic { format, total_batches, current_batch: 0 }
    }

    /// A stream over `chunks` parts of a file, none of which is read yet.
    pub fn chunked(chunks: usize) -> (r: Self)
        ensures
            r == (DatasetStream::Chunked { chunks, current_chunk_idx: 0, loaded: 0, cursor: 0 }),
            r.wf(),
    {
        DatasetStream::Chunked { chunks, current_chunk_idx: 0, loaded: 0, cursor: 0 }
    }

    /// A stream over `total` batches that are all held.
    pub fn buffered(total: usize) -> (r: Self)
        ensures
            r == (DatasetStream::Buffered { total, cursor: 0 }),
            r.wf(),
    {
        DatasetStream::Buffered { total, cursor: 0 }
    }

    /// What is to be done for the next batch.
    pub open spec fn action(self) -> StreamAction {
        match self {
            DatasetStream::Chunked { chunks, current_chunk_idx, loaded, cursor } => if cursor
                < loaded {
                StreamAction::Item(cursor)
            } else if current_chunk_idx < chunks {
                StreamAction::LoadChunk(current_chunk_idx)
            } else {
                StreamAction::End
            },
            DatasetStream::Synthetic { format, total_batches, current_batch } => if current_batch
                < total_batches {
                StreamAction::Generate { format, batch: current_batch }
            } else {
                StreamAction::End
            },
            DatasetStream::Buffered { total, cursor } => if cursor < total {
                StreamAction::Item(cursor)
            } else {
                StreamAction::End
            },
        }
    }

    /// The stream with one batch handed out.
    pub open spec fn advanced(self) -> Self {
        match (self, self.action()) {
            (
                DatasetStream::Chunked { chunks, current_chunk_idx, loaded, cursor },
                StreamAction::Item(_),
            ) => DatasetStream::Chunked {
                chunks,
                current_chunk_idx,
                loaded,
                cursor: (cursor + 1) as usize,
            },
            (
                DatasetStream::Synthetic { format, total_batches, current_batch },
                StreamAction::Generate { .. },
            ) => DatasetStream::Synthetic {
                format,
                total_batches,
                current_batch: (current_batch + 1) as usize,
            },
            (DatasetStream::Buffered { total, cursor }, StreamAction::Item(_)) =>
                DatasetStream::Buffered { total, cursor: (cursor + 1) as usize },
            _ => self,
        }
    }

    /// The stream with the next part read.
    pub open spec fn reloaded(self, count: usize) -> Self {
        match self {
            DatasetStream::Chunked { chunks, current_chunk_idx, loaded, cursor } =>
                DatasetStream::Chunked {
                chunks,
                current_chunk_idx: (current_chunk_idx + 1) as usize,
                loaded: count,
                cursor: 0,
            },
            _ => self,
        }
    }

    /// Takes the next batch, or says which part has to be read before that.
    pub fn next(&mut self) -> (r: StreamAction)
        requires
            old(self).wf(),
        ensures
            r == old(self).action(),
            *final(self) == old(self).advanced(),
            final(self).wf(),
    {
        match *self {
            DatasetStream::Chunked { chunks, current_chunk_idx, loaded, cursor } => {
                if cursor < loaded {
                    *self =
                    DatasetStream::Chunked { chunks, current_chunk_idx, loaded, cursor: cursor + 1 };
                    StreamAction::Item(cursor)
                } else if current_chunk_idx < chunks {
                    StreamAction::LoadChunk(current_chunk_idx)
                } else {
                    StreamAction::End
                }
            },
            DatasetStream::Synthetic { format, total_batches, current_batch } => {
                if current_batch < total_batches {
                    *self =
                    DatasetStream::Synthetic {
                        format,
                        total_batches,
                        current_batch: current_batch + 1,
                    };
                    StreamAction::Generate { format, batch: current_batch }
                } else {
                    StreamAction::End
                }
            },
            DatasetStream::Buffered { total, cursor } => {
                if cursor < total {
                    *self = DatasetStream::Buffered { total, cursor: cursor + 1 };
                    StreamAction::Item(cursor)
                } else {
                    StreamAction::End
                }
            },
        }
    }

    /// Notes that the next part was read and holds `count` samples. A part that cannot be
    /// read is not noted, so it is asked for again.
    pub fn load_next_chunk(&mut self, count: usize)
        requires
            old(self).wf(),
            old(self).action() is LoadChunk,
        ensures
            *final(self) == old(self).reloaded(count),
            final(self).wf(),
    {
        match *self {
            DatasetStream::Chunked { chunks, current_chunk_idx, loaded, cursor } => {
                *self =
                DatasetStream::Chunked {
                    chunks,
                    current_chunk_idx: current_chunk_idx + 1,
                    loaded: count,
                    cursor: 0,
                };
            },
            _ => {},
        }
    }

    /// What is to be done right after a part was read: a sample is taken, or there is none.
    pub open spec fn first_action(self) -> StreamAction {
        if self.action() is Item {
            self.action()
        } else {
            StreamAction::End
        }
    }

    /// Takes the first sample of a part just read. Where the part is empty the stream is
    /// taken to be at its end.
    pub fn first_of_chunk(&mut self) -> (r: StreamAction)
        requires
            old(self).wf(),
        ensures
            r == old(self).first_action(),
            *final(self) == (if old(self).action() is Item {
                old(self).advanced()
            } else {
                *old(self)
            }),
            final(self).wf(),
    {
        match *self {
            DatasetStream::Chunked { loaded, cursor, .. } => if cursor < loaded {
                self.next()
            } else {
                StreamAction::End
            },
            DatasetStream::Buffered { total, cursor } => if cursor < total {
                self.next()
            } else {
                StreamAction::End
            },
            _ => StreamAction::End,
        }
    }
}

/// What a stream over parts of the given sizes still has to hand out: pairs of a part and a
/// sample in it.
pub open spec fn still_to_come(stream: DatasetStream, sizes: Seq<usize>) -> Seq<(int, int)> {
    match stream {
        DatasetStream::Chunked { chunks, current_chunk_idx, loaded, cursor } => Seq::new(
            (loaded - cursor) as nat,
            |i: int| (current_chunk_idx - 1, cursor + i),
        ) + parts_from(sizes, current_chunk_idx as int),
        _ => Seq::empty(),
    }
}

/// All samples of the parts from `from` on.
pub open spec fn parts_from(sizes: Seq<usize>, from: int) -> Seq<(int, int)>
    decreases sizes.len() - from,
{
    if 0 <= from < sizes.len() {
        Seq::new(sizes[from] as nat, |i: int| (from, i)) + parts_from(sizes, from + 1)
    } else {
        Seq::empty()
    }
}

/// A stream hands out each sample once, in order: what comes next is the first of what is
/// still to come.
pub proof fn law_stream_in_order(stream: DatasetStream, sizes: Seq<usize>)
    requires
        stream.wf(),
        stream matches DatasetStream::Chunked { chunks, .. } && chunks == sizes.len(),
        stream.action() is Item,
    ensures
        still_to_come(stream, sizes).len() > 0,
        still_to_come(stream, sizes)[0].1 == stream.action()->Item_0,
        still_to_come(stream.advanced(), sizes) == still_to_come(stream, sizes).skip(1),
{
    let now = still_to_come(stream, sizes);
    assert(still_to_come(stream.advanced(), sizes) =~= now.skip(1));
}

/// Reading a part loses and repeats nothing.
pub proof fn law_reading_a_part_loses_nothing(stream: DatasetStream, sizes: Seq<usize>)
    requires
        stream.wf(),
        stream matches DatasetStream::Chunked { chunks, .. } && chunks == sizes.len(),
        stream.action() is LoadChunk,
    ensures
        still_to_come(
            stream.reloaded(sizes[stream.action()->LoadChunk_0 as int]),
            sizes,
        ) == still_to_come(stream, sizes),
{
    let at = stream.action()->LoadChunk_0;
    let after = stream.reloaded(sizes[at as int]);
    assert(still_to_come(after, sizes) =~= still_to_come(stream, sizes));
}

/// A stream begins with everything still to come and ends with nothing.
pub proof fn law_stream_is_complete(stream: DatasetStream, sizes: Seq<usize>)
    requires
        stream.wf(),
        stream matches DatasetStream::Chunked { chunks, .. } && chunks == sizes.len(),
    ensures
        stream.action() is End ==> still_to_come(stream, sizes).len() == 0,
        stream == (DatasetStream::Chunked {
            chunks: sizes.len() as usize,
            current_chunk_idx: 0,
            loaded: 0,
            cursor: 0,
        }) ==> still_to_come(stream, sizes) == parts_from(sizes, 0),
{
    if stream == (DatasetStream::Chunked {
        chunks: sizes.len() as usize,
        current_chunk_idx: 0,
        loaded: 0,
        cursor: 0,
    }) {
        assert(still_to_come(stream, sizes) =~= parts_from(sizes, 0));
    }
}

/// The stream after `calls` batches were asked for.
pub open spec fn after_calls(stream: DatasetStream, calls: nat) -> DatasetStream
    decreases calls,
{
    if calls == 0 {
        stream
    } else {
        after_calls(stream, (calls - 1) as nat).advanced()
    }
}

/// A made-up dataset of `n` batches gives `n` batches, numbered from 0, and then the end, for
/// ever. It is made up whether or not there is a file of its name.
pub proof fn law_made_up_dataset(format: DatasetFormat, n: usize, path_exists: bool, calls: nat)
    requires
        format.synthetic(),
    ensures
        planned(format, path_exists) == DatasetPlan::Generate(format),
        ({
            let stream = DatasetStream::Synthetic { format, total_batches: n, current_batch: 0 };
            after_calls(stream, calls).action() == if calls < n {
                StreamAction::Generate { format, batch: calls as usize }
            } else {
                StreamAction::End
            }
        }),
{
    lemma_made_up_cursor(format, n, calls);
}

proof fn lemma_made_up_cursor(format: DatasetFormat, n: usize, calls: nat)
    ensures
        after_calls(
            DatasetStream::Synthetic { format, total_batches: n, current_batch: 0 },
            calls,
        ) == (DatasetStream::Synthetic {
            format,
            total_batches: n,
            current_batch: if calls < n {
                calls as usize
            } else {
                n
            },
        }),
    decreases calls,
{
    if calls > 0 {
        lemma_made_up_cursor(format, n, (calls - 1) as nat);
    }
}

/// The stretches that a list of `total` entries is cut into, each of `size` but the last.
pub open spec fn chunk_bounds(total: int, size: int) -> Seq<(usize, usize)> {
    Seq::new(
        ((total + size - 1) / size) as nat,
        |i: int|
            (
                (i * size) as usize,
                (if (i + 1) * size < total {
                    (i + 1) * size
                } else {
                    total
                }) as usize,
            ),
    )
}

/// Cuts a list of `total` entries into stretches of `size`.
pub fn chunk_ranges(total: usize, size: usize) -> (r: Vec<(usize, usize)>)
    requires
        size > 0,
    ensures
        r@ == chunk_bounds(total as int, size as int),
{
    let mut r: Vec<(usize, usize)> = Vec::new();
    let mut start: usize = 0;
    let ghost mut k: int = 0;
    while start < total
        invariant
            size > 0,
            k >= 0,
            start <= total,
            start < total ==> start == k * size,
            start == total ==> (k - 1) * size < total <= k * size || (total == 0 && k == 0),
            r@.len() == k,
            forall|i: int|
                0 <= i < k ==> #[trigger] r@[i] == (
                    (i * size) as usize,
                    (if (i + 1) * size < total {
                        (i + 1) * size
                    } else {
                        total as int
                    }) as usize,
                ),
        decreases total - start,
    {
        let end: usize = if size < total - start {
            start + size
        } else {
            total
        };
        proof {
            assert((k + 1) * size == k * size + size) by (nonlinear_arith);
        }
        r.push((start, end));
        proof {
            k = k + 1;
            assert((k - 1) * size == start);
        }
        start = end;
    }
    proof {
        let n = (total + size - 1) / size as int;
        assert(n == k) by {
            if total == 0 {
                assert(k == 0);
                vstd::arithmetic::div_mod::lemma_basic_div(size - 1, size as int);
            } else {
                assert(k * size - size == (k - 1) * size) by (nonlinear_arith);
                vstd::arithmetic::div_mod::lemma_fundamental_div_mod_converse(
                    total + size - 1,
                    size as int,
                    k,
                    total + size - 1 - k * size,
                );
            }
        }
    }
    assert(r@ =~= chunk_bounds(total as int, size as int));
    r
}

/// The stretches follow one another without a gap, are not empty, and cover the list.
pub proof fn law_chunks_cover(total: int, size: int, i: int)
    requires
        0 < total <= usize::MAX,
        0 < size <= usize::MAX,
        0 <= i < chunk_bounds(total, size).len(),
    ensures
        chunk_bounds(total, size)[0].0 == 0,
        chunk_bounds(total, size)[i].0 < chunk_bounds(total, size)[i].1 <= total,
        chunk_bounds(total, size)[i].1 - chunk_bounds(total, size)[i].0 <= size,
        i + 1 < chunk_bounds(total, size).len() ==> chunk_bounds(total, size)[i].1 == chunk_bounds(
            total,
            size,
        )[i + 1].0,
        chunk_bounds(total, size).last().1 == total,
{
    let n = (total + size - 1) / size;
    vstd::arithmetic::div_mod::lemma_fundamental_div_mod(total + size - 1, size);
    vstd::arithmetic::div_mod::lemma_mod_bound(total + size - 1, size);
    assert(size * n == n * size) by (nonlinear_arith);
    // n * size is the first multiple of size at or beyond total
    assert(total <= n * size < total + size);
    assert(i * size <= (n - 1) * size) by (nonlinear_arith)
        requires
            i <= n - 1,
            0 < size,
    ;
    assert((n - 1) * size == n * size - size) by (nonlinear_arith);
    assert((i + 1) * size == i * size + size) by (nonlinear_arith);
    assert(0 <= i * size) by (nonlinear_arith)
        requires
            0 <= i,
            0 < size,
    ;
    assert(0 * size == 0) by (nonlinear_arith);
    if i + 1 < n {
        assert((i + 1) * size <= (n - 1) * size) by (nonlinear_arith)
            requires
                i + 1 <= n - 1,
                0 < size,
        ;
    }
    assert((n - 1 + 1) * size == n * size);
}

/// The name of part `i` of a list of JSON items.
pub open spec fn json_part(i: nat) -> Seq<char> {
    "chunk_"@ + padded(i, 5) + ".jsonl"@
}

/// The name of part `i` of a table.
pub open spec fn csv_part(file_name: Seq<char>, i: nat) -> Seq<char> {
    file_name + "_chunk_"@ + decimal(i) + ".csv"@
}

/// The name of part `i` of a list of JSON items.
pub fn json_part_name(i: usize) -> (r: String)
    ensures
        r@ == json_part(i as nat),
{
    let mut r: String = "chunk_".to_owned();
    put_padded(&mut r, i as u64, 5);
    r.append(".jsonl");
    r
}

/// The name of part `i` of a table.
pub fn csv_part_name(file_name: &str, i: usize) -> (r: String)
    ensures
        r@ == csv_part(file_name@, i as nat),
{
    let mut r: String = file_name.to_owned();
    r.append("_chunk_");
    put_decimal(&mut r, i as u64);
    r.append(".csv");
    r
}

/// No two parts of a dataset have the same name.
pub proof fn law_part_names_differ(file_name: Seq<char>, i: nat, j: nat)
    requires
        i != j,
    ensures
        "chunk_"@ + padded(i, 5) + ".jsonl"@ != "chunk_"@ + padded(j, 5) + ".jsonl"@,
        file_name + "_chunk_"@ + decimal(i) + ".csv"@ != file_name + "_chunk_"@ + decimal(j)
            + ".csv"@,
{
    crate::text::law_padded_is_read_back(i, 5);
    crate::text::law_padded_is_read_back(j, 5);
    crate::text::law_decimal_is_read_back(i);
    crate::text::law_decimal_is_read_back(j);
    if "chunk_"@ + padded(i, 5) + ".jsonl"@ == "chunk_"@ + padded(j, 5) + ".jsonl"@ {
        crate::text::lemma_same_middle("chunk_"@, padded(i, 5), padded(j, 5), ".jsonl"@);
    }
    let front = file_name + "_chunk_"@;
    if front + decimal(i) + ".csv"@ == front + decimal(j) + ".csv"@ {
        crate::text::lemma_same_middle(front, decimal(i), decimal(j), ".csv"@);
    }
}

/// Each name stands for one kind of dataset: these and no others for each but JSON, which all
/// other names stand for.
pub proof fn law_names_of_formats(name: Seq<char>)
    ensures
        format_named(name) is Jsonl <==> name == "jsonl"@,
        format_named(name) is Csv <==> name == "csv"@,
        format_named(name) is Sqlite <==> name == "sqlite"@ || name == "db"@,
        format_named(name) is DeterministicPeriodic <==> name == "periodic"@ || name == "regular"@
            || name == "deterministic"@ || name == "sine"@,
        format_named(name) is PureHarmonic <==> name == "harmonic"@ || name == "pure_harmonic"@
            || name == "fourier"@,
        format_named(name) is AssociativeRecall <==> name == "recall"@ || name == "associative"@
            || name == "memory"@ || name == "copy"@,
        format_named(name) is MackeyGlass <==> name == "chaos"@ || name == "chaotic"@ || name
            == "mackey_glass"@ || name == "lorenz"@,
        format_named(name) is MarkovGrammar <==> name == "markov"@ || name == "grammar"@ || name
            == "graph"@ || name == "automaton"@,
        format_named(name) is GaussianNoise <==> name == "noise"@ || name == "gaussian"@ || name
            == "random_noise"@ || name == "white_noise"@,
        format_named(name) is RandomTokens <==> name == "random"@ || name == "randomtokens"@ || name
            == "tokens"@,
        format_named(name) is SyntheticPattern <==> name == "pattern"@ || name == "synthetic"@
            || name == "composite"@,
{
    reveal_strlit("jsonl");
    reveal_strlit("csv");
    reveal_strlit("sqlite");
    reveal_strlit("db");
    reveal_strlit("periodic");
    reveal_strlit("regular");
    reveal_strlit("deterministic");
    reveal_strlit("sine");
    reveal_strlit("harmonic");
    reveal_strlit("pure_harmonic");
    reveal_strlit("fourier");
    reveal_strlit("recall");
    reveal_strlit("associative");
    reveal_strlit("memory");
    reveal_strlit("copy");
    reveal_strlit("chaos");
    reveal_strlit("chaotic");
    reveal_strlit("mackey_glass");
    reveal_strlit("lorenz");
    reveal_strlit("markov");
    reveal_strlit("grammar");
    reveal_strlit("graph");
    reveal_strlit("automaton");
    reveal_strlit("noise");
    reveal_strlit("gaussian");
    reveal_strlit("random_noise");
    reveal_strlit("white_noise");
    reveal_strlit("random");
    reveal_strlit("randomtokens");
    reveal_strlit("tokens");
    reveal_strlit("pattern");
    reveal_strlit("synthetic");
    reveal_strlit("composite");
    assert("jsonl"@.len() == 5 && "jsonl"@[0] == 'j' && "jsonl"@[1] == 's');
    assert("csv"@.len() == 3 && "csv"@[0] == 'c' && "csv"@[1] == 's');
    assert("sqlite"@.len() == 6 && "sqlite"@[0] == 's' && "sqlite"@[1] == 'q');
    assert("db"@.len() == 2 && "db"@[0] == 'd' && "db"@[1] == 'b');
    assert("periodic"@.len() == 8 && "periodic"@[0] == 'p' && "periodic"@[1] == 'e');
    assert("regular"@.len() == 7 && "regular"@[0] == 'r' && "regular"@[1] == 'e');
    assert("deterministic"@.len() == 13 && "deterministic"@[0] == 'd' && "deterministic"@[1] == 'e');
    assert("sine"@.len() == 4 && "sine"@[0] == 's' && "sine"@[1] == 'i');
    assert("harmonic"@.len() == 8 && "harmonic"@[0] == 'h' && "harmonic"@[1] == 'a');
    assert("pure_harmonic"@.len() == 13 && "pure_harmonic"@[0] == 'p' && "pure_harmonic"@[1] == 'u');
    assert("fourier"@.len() == 7 && "fourier"@[0] == 'f' && "fourier"@[1] == 'o');
    assert("recall"@.len() == 6 && "recall"@[0] == 'r' && "recall"@[1] == 'e');
    assert("associative"@.len() == 11 && "associative"@[0] == 'a' && "associative"@[1] == 's');
    assert("memory"@.len() == 6 && "memory"@[0] == 'm' && "memory"@[1] == 'e');
    assert("copy"@.len() == 4 && "copy"@[0] == 'c' && "copy"@[1] == 'o');
    assert("chaos"@.len() == 5 && "chaos"@[0] == 'c' && "chaos"@[1] == 'h');
    assert("chaotic"@.len() == 7 && "chaotic"@[0] == 'c' && "chaotic"@[1] == 'h');
    assert("mackey_glass"@.len() == 12 && "mackey_glass"@[0] == 'm' && "mackey_glass"@[1] == 'a');
    assert("lorenz"@.len() == 6 && "lorenz"@[0] == 'l' && "lorenz"@[1] == 'o');
    assert("markov"@.len() == 6 && "markov"@[0] == 'm' && "markov"@[1] == 'a');
    assert("grammar"@.len() == 7 && "grammar"@[0] == 'g' && "grammar"@[1] == 'r');
    assert("graph"@.len() == 5 && "graph"@[0] == 'g' && "graph"@[1] == 'r');
    assert("automaton"@.len() == 9 && "automaton"@[0] == 'a' && "automaton"@[1] == 'u');
    assert("noise"@.len() == 5 && "noise"@[0] == 'n' && "noise"@[1] == 'o');
    assert("gaussian"@.len() == 8 && "gaussian"@[0] == 'g' && "gaussian"@[1] == 'a');
    assert("random_noise"@.len() == 12 && "random_noise"@[0] == 'r' && "random_noise"@[1] == 'a'
        && "random_noise"@[6] == '_');
    assert("white_noise"@.len() == 11 && "white_noise"@[0] == 'w' && "white_noise"@[1] == 'h');
    assert("random"@.len() == 6 && "random"@[0] == 'r' && "random"@[1] == 'a');
    assert("randomtokens"@.len() == 12 && "randomtokens"@[0] == 'r' && "randomtokens"@[1] == 'a'
        && "randomtokens"@[6] == 't');
    assert("tokens"@.len() == 6 && "tokens"@[0] == 't' && "tokens"@[1] == 'o');
    assert("pattern"@.len() == 7 && "pattern"@[0] == 'p' && "pattern"@[1] == 'a');
    assert("synthetic"@.len() == 9 && "synthetic"@[0] == 's' && "synthetic"@[1] == 'y');
    assert("composite"@.len() == 9 && "composite"@[0] == 'c' && "composite"@[1] == 'o');
}

/// What can be read is read where it is there, and made up where it is not. What is made up
/// anyway is made up either way.
pub proof fn law_files_are_read_where_they_are(format: DatasetFormat, path_exists: bool)
    ensures
        format is Json || format is Jsonl || format is Csv || format is Sqlite ==> {
            &&& !format.synthetic()
            &&& planned(format, true) == DatasetPlan::Split(format)
            &&& planned(format, false) == DatasetPlan::Substitute
        },
        format is DeterministicPeriodic || format is PureHarmonic || format is AssociativeRecall
            || format is MackeyGlass || format is MarkovGrammar || format is GaussianNoise
            || format is RandomTokens || format is SyntheticPattern ==> {
            &&& format.synthetic()
            &&& planned(format, path_exists) == DatasetPlan::Generate(format)
        },
{
}

/// The number of batches is what is asked for. Where nothing is asked for it is no less than
/// 500 for each epoch and no less than 32000, and no more than it takes.
pub proof fn law_batches_suffice(n: usize, epochs: int)
    requires
        0 <= epochs,
    ensures
        batch_count(Some(n), epochs) == n,
        batch_count(None, epochs) >= 500 * epochs,
        batch_count(None, epochs) >= 32000,
        batch_count(None, epochs) == 32000 || batch_count(None, epochs) == 500 * epochs,
{
}

/// Batches that are all held are handed out once each, in their order, and then comes the end,
/// for ever.
pub proof fn law_held_batches_come_in_order(n: usize, calls: nat)
    ensures
        after_calls(DatasetStream::Buffered { total: n, cursor: 0 }, calls).action() == if calls < n {
            StreamAction::Item(calls as usize)
        } else {
            StreamAction::End
        },
{
    lemma_held_cursor(n, calls);
}

proof fn lemma_held_cursor(n: usize, calls: nat)
    ensures
        after_calls(DatasetStream::Buffered { total: n, cursor: 0 }, calls) == (
        DatasetStream::Buffered {
            total: n,
            cursor: if calls < n {
                calls as usize
            } else {
                n
            },
        }),
    decreases calls,
{
    if calls > 0 {
        lemma_held_cursor(n, (calls - 1) as nat);
    }
}

/// A stream over parts asks for them in their order, each when all samples of those before it
/// are handed out, and hands out nothing while it asks.
pub proof fn law_parts_are_read_in_turn(
    chunks: usize,
    current_chunk_idx: usize,
    loaded: usize,
    cursor: usize,
    count: usize,
)
    requires
        cursor <= loaded,
        current_chunk_idx <= chunks,
    ensures
        ({
            let stream = DatasetStream::Chunked { chunks, current_chunk_idx, loaded, cursor };
            &&& cursor < loaded ==> stream.action() == StreamAction::Item(cursor)
                && stream.advanced() == (DatasetStream::Chunked {
                chunks,
                current_chunk_idx,
                loaded,
                cursor: (cursor + 1) as usize,
            })
            &&& cursor == loaded && current_chunk_idx < chunks ==> stream.action()
                == StreamAction::LoadChunk(current_chunk_idx) && stream.advanced() == stream
                && stream.reloaded(count) == (DatasetStream::Chunked {
                chunks,
                current_chunk_idx: (current_chunk_idx + 1) as usize,
                loaded: count,
                cursor: 0,
            })
            &&& cursor == loaded && current_chunk_idx == chunks ==> stream.action()
                == StreamAction::End && stream.advanced() == stream
        }),
{
}

/// Every stretch but the last has the full size, and the stretches are as many as it takes.
pub proof fn law_chunks_are_full(total: int, size: int, i: int)
    requires
        0 < total <= usize::MAX,
        0 < size <= usize::MAX,
        0 <= i < chunk_bounds(total, size).len(),
    ensures
        chunk_bounds(total, size)[i].0 == i * size,
        i + 1 < chunk_bounds(total, size).len() ==> chunk_bounds(total, size)[i].1 == (i + 1) * size,
        i + 1 == chunk_bounds(total, size).len() ==> chunk_bounds(total, size)[i].1 == total,
        (chunk_bounds(total, size).len() - 1) * size < total <= chunk_bounds(total, size).len()
            * size,
{
    let n = (total + size - 1) / size;
    vstd::arithmetic::div_mod::lemma_fundamental_div_mod(total + size - 1, size);
    vstd::arithmetic::div_mod::lemma_mod_bound(total + size - 1, size);
    assert(size * n == n * size) by (nonlinear_arith);
    assert((n - 1) * size == n * size - size) by (nonlinear_arith);
    assert(0 <= i * size <= (n - 1) * size) by (nonlinear_arith)
        requires
            0 <= i <= n - 1,
            0 < size,
    ;
    if i + 1 < n {
        assert((i + 1) * size <= (n - 1) * size) by (nonlinear_arith)
            requires
                i + 1 <= n - 1,
                0 < size,
        ;
    }
    assert((i + 1) * size == i * size + size) by (nonlinear_arith);
}


/// Parts are named by their number: those of a list with five digits at least, those of a table
/// behind the name of its file.
pub proof fn law_parts_are_named_by_number(file_name: Seq<char>, i: nat)
    ensures
        json_part(i) == "chunk_"@ + padded(i, 5) + ".jsonl"@,
        csv_part(file_name, i) == file_name + "_chunk_"@ + decimal(i) + ".csv"@,
{
}

/// The first sample of a part just read is its sample zero; a part without samples ends the
/// stream.
pub proof fn law_a_part_starts_with_its_first_sample(stream: DatasetStream, count: usize)
    requires
        stream is Chunked,
    ensures
        count > 0 ==> stream.reloaded(count).first_action() == StreamAction::Item(0),
        count == 0 ==> stream.reloaded(count).first_action() is End,
{
}

} // verus!
