//! What is written to logs.
use crate::text::{
    add_items, aligned_decimal, comma_row, comma_separated, decimal, decimal_text, interleave,
    interleaved, joined, law_joined_keeps_parts, law_one_comma_between_fields,
    law_pieces_stand_around_values, padded, put_decimal, put_padded, right_aligned, texts,
};
use std::time::SystemTime;
use vstd::prelude::*;

verus! {

/// Calls `SystemTime::now` and gives the time as milliseconds since the Unix epoch. `None`
/// stands for a clock that is set to a time before it. A duration counts its whole seconds
/// in 64 bits. Nothing more is claimed of what the clock says.
#[verifier::external_body]
fn clock_millis() -> (r: Option<u128>)
    ensures
        r matches Some(millis) ==> millis < (u64::MAX + 1) * 1000,
{
    let now = SystemTime::now();
    now.duration_since(SystemTime::UNIX_EPOCH).ok().map(|d| d.as_millis())
}

/// A time of day, in hours, minutes, seconds and milliseconds.
pub open spec fn time_of_day(secs: int, millis: int) -> Seq<char> {
    padded((secs / 3600 % 24) as nat, 2) + ":"@ + padded((secs / 60 % 60) as nat, 2) + ":"@ + padded(
        (secs % 60) as nat,
        2,
    ) + "."@ + padded(millis as nat, 3)
}

/// The time of day a number of seconds and milliseconds after the Unix epoch.
pub fn clock_text(secs: u64, millis: u32) -> (r: String)
    ensures
        r@ == time_of_day(secs as int, millis as int),
{
    let mut r: String = String::new();
    put_padded(&mut r, (secs / 3600) % 24, 2);
    r.append(":");
    put_padded(&mut r, (secs / 60) % 60, 2);
    r.append(":");
    put_padded(&mut r, secs % 60, 2);
    r.append(".");
    put_padded(&mut r, millis as u64, 3);
    assert(r@ =~= time_of_day(secs as int, millis as int));
    r
}

/// The time of day that a reading of the clock shows, in milliseconds since the Unix epoch.
/// A clock that is set to a time before it shows midnight.
pub open spec fn shown_time(reading: Option<u128>) -> Seq<char> {
    match reading {
        Some(ms) => time_of_day(ms as int / 1000, ms as int % 1000),
        None => time_of_day(0, 0),
    }
}

/// What a reading of the clock can be: its whole seconds are counted in 64 bits.
pub open spec fn clock_range(reading: Option<u128>) -> bool {
    reading matches Some(ms) ==> ms < (u64::MAX + 1) * 1000
}

/// The time of day that a reading of the clock shows, in milliseconds since the Unix epoch.
/// `None` stands for a clock that is set to a time before it.
pub fn timestamp_at(reading: Option<u128>) -> (r: String)
    requires
        clock_range(reading),
    ensures
        r@ == shown_time(reading),
        reading is None ==> r@ == "00:00:00.000"@,
{
    proof {
        lemma_midnight();
    }
    match reading {
        Some(ms) => clock_text((ms / 1000) as u64, (ms % 1000) as u32),
        None => clock_text(0, 0),
    }
}

/// The time of day that the clock shows.
pub fn chrono_timestamp() -> (r: String)
    ensures
        exists|reading: Option<u128>|
            clock_range(reading) && r@ == #[trigger] shown_time(reading),
{
    timestamp_at(clock_millis())
}

/// Midnight, written out.
proof fn lemma_midnight()
    ensures
        time_of_day(0, 0) == "00:00:00.000"@,
{
    reveal_strlit(":");
    reveal_strlit(".");
    reveal_strlit("00:00:00.000");
    assert(padded(0, 2) =~= seq!['0', '0']);
    assert(padded(0, 3) =~= seq!['0', '0', '0']);
    assert(time_of_day(0, 0) =~= "00:00:00.000"@);
}

/// A day later a clock shows the same time.
pub proof fn law_days_repeat(ms: u128, days: nat)
    requires
        ms + days * 86_400_000 <= u128::MAX,
    ensures
        shown_time(Some((ms + days * 86_400_000) as u128)) == shown_time(Some(ms)),
{
    let secs = ms as int / 1000;
    let later = ms + days * 86_400_000;
    assert(later / 1000 == secs + days * 86_400 && later % 1000 == ms as int % 1000);
    assert((secs + days * 86_400) % 60 == secs % 60);
    assert((secs + days * 86_400) / 60 == secs / 60 + days * 1440);
    assert((secs / 60 + days * 1440) % 60 == secs / 60 % 60);
    assert((secs + days * 86_400) / 3600 == secs / 3600 + days * 24);
    assert((secs / 3600 + days * 24) % 24 == secs / 3600 % 24);
}

/// A time stamp has twelve characters, and its parts stand at fixed places.
pub proof fn law_time_has_fixed_width(secs: int, millis: int)
    requires
        0 <= secs,
        0 <= millis < 1000,
    ensures
        time_of_day(secs, millis).len() == 12,
        time_of_day(secs, millis)[2] == ':',
        time_of_day(secs, millis)[5] == ':',
        time_of_day(secs, millis)[8] == '.',
{
    reveal_strlit(":");
    reveal_strlit(".");
    lemma_width(((secs / 3600) % 24) as nat, 2);
    lemma_width(((secs / 60) % 60) as nat, 2);
    lemma_width((secs % 60) as nat, 2);
    lemma_width(millis as nat, 3);
}

/// A number of at most two digits takes two places, one of at most three takes three.
proof fn lemma_width(n: nat, width: nat)
    requires
        (width == 2 && n < 100) || (width == 3 && n < 1000),
    ensures
        padded(n, width).len() == width,
{
    reveal_with_fuel(decimal, 4);
}

/// The name of a log file that was begun `secs` seconds after the Unix epoch.
pub open spec fn log_file(prefix: Seq<char>, secs: nat) -> Seq<char> {
    prefix + "_"@ + decimal(secs) + ".log"@
}

/// The name of a log file that was begun at a time.
pub fn log_file_name(prefix: &str, secs: u64) -> (r: String)
    ensures
        r@ == log_file(prefix@, secs as nat),
{
    let mut r: String = prefix.to_owned();
    r.append("_");
    put_decimal(&mut r, secs);
    r.append(".log");
    r
}

/// One entry of a log.
pub open spec fn log_entry(timestamp: Seq<char>, tag: Seq<char>, msg: Seq<char>) -> Seq<char> {
    "["@ + timestamp + "] "@ + tag + " | "@ + msg + "\n"@
}

/// One entry of a log.
pub fn log_line(timestamp: &str, tag: &str, msg: &str) -> (r: String)
    ensures
        r@ == log_entry(timestamp@, tag@, msg@),
{
    let mut r: String = "[".to_owned();
    r.append(timestamp);
    r.append("] ");
    r.append(tag);
    r.append(" | ");
    r.append(msg);
    r.append("\n");
    r
}

/// The nodes that grew, a line for each of the first `n`.
pub open spec fn growth_lines(details: Seq<(usize, usize, usize)>, n: int) -> Seq<char>
    decreases n,
{
    if n <= 0 {
        Seq::empty()
    } else {
        let d = details[n - 1];
        growth_lines(details, n - 1) + "\n  -> Node "@ + decimal(d.0 as nat) + ": subnodes "@ + decimal(
            d.1 as nat,
        ) + " -> "@ + decimal(d.2 as nat)
    }
}

/// Links that are left.
pub open spec fn remaining(before: int, pruned: int) -> nat {
    if before < pruned {
        0
    } else {
        (before - pruned) as nat
    }
}

/// The report on a hardening pass.
pub open spec fn hardening_text(
    epoch: nat,
    links_before: int,
    links_pruned: nat,
    nodes_grown: nat,
    details: Seq<(usize, usize, usize)>,
) -> Seq<char> {
    "Hardening Pass (Epoch "@ + decimal(epoch) + "): Pruned "@ + decimal(
        links_pruned,
    ) + " links (Remaining: "@ + decimal(remaining(links_before, links_pruned as int))
        + "). Spawned "@ + decimal(nodes_grown) + " local subnodes."@ + growth_lines(
        details,
        details.len() as int,
    )
}

/// The report on a hardening pass.
pub fn hardening_message(
    epoch: usize,
    links_before: usize,
    links_pruned: usize,
    nodes_grown: usize,
    spawn_details: &Vec<(usize, usize, usize)>,
) -> (r: String)
    ensures
        r@ == hardening_text(
            epoch as nat,
            links_before as int,
            links_pruned as nat,
            nodes_grown as nat,
            spawn_details@,
        ),
{
    let left: usize = if links_before < links_pruned {
        0
    } else {
        links_before - links_pruned
    };
    let mut r: String = "Hardening Pass (Epoch ".to_owned();
    put_decimal(&mut r, epoch as u64);
    r.append("): Pruned ");
    put_decimal(&mut r, links_pruned as u64);
    r.append(" links (Remaining: ");
    put_decimal(&mut r, left as u64);
    r.append("). Spawned ");
    put_decimal(&mut r, nodes_grown as u64);
    r.append(" local subnodes.");
    let ghost head = r@;
    let mut i: usize = 0;
    assert(head + growth_lines(spawn_details@, 0) =~= head);
    while i < spawn_details.len()
        invariant
            i <= spawn_details.len(),
            r@ == head + growth_lines(spawn_details@, i as int),
        decreases spawn_details.len() - i,
    {
        let d: (usize, usize, usize) = spawn_details[i];
        r.append("\n  -> Node ");
        put_decimal(&mut r, d.0 as u64);
        r.append(": subnodes ");
        put_decimal(&mut r, d.1 as u64);
        r.append(" -> ");
        put_decimal(&mut r, d.2 as u64);
        i += 1;
        assert(r@ =~= head + growth_lines(spawn_details@, i as int));
    }
    r
}

/// The first row of a training table.
pub fn training_header() -> (r: &'static str)
    ensures
        r@
            == "timestamp,epoch,batch,step_loss,ema_loss,early_halting_rate,gini,avg_hops,avg_energy,memory_density,active_subnodes,credit_volatility,temporal_affinity"@,
{
    "timestamp,epoch,batch,step_loss,ema_loss,early_halting_rate,gini,avg_hops,avg_energy,memory_density,active_subnodes,credit_volatility,temporal_affinity"
}

/// The first row of an evaluation table.
pub fn evaluation_header() -> (r: &'static str)
    ensures
        r@
            == "timestamp,batch,next_token_mse,next_token_cossim,next_token_mae,nmse,psnr_db,direct_recon_mse,internal_td_loss,early_halting_rate,gini,avg_hops,avg_energy,memory_density,active_subnodes"@,
{
    "timestamp,batch,next_token_mse,next_token_cossim,next_token_mae,nmse,psnr_db,direct_recon_mse,internal_td_loss,early_halting_rate,gini,avg_hops,avg_energy,memory_density,active_subnodes"
}

/// A row of a training table.
pub open spec fn training_line(
    timestamp: Seq<char>,
    epoch: nat,
    batch: nat,
    figures: Seq<Seq<char>>,
) -> Seq<char> {
    comma_separated(
        seq![timestamp, decimal(epoch), decimal(batch)] + figures,
    ) + "\n"@
}

/// A row of a training table: the time, the epoch, the batch, then the figures as they are
/// to be shown.
pub fn training_row(timestamp: &str, epoch: usize, batch: usize, figures: &Vec<String>) -> (r: String)
    ensures
        r@ == training_line(timestamp@, epoch as nat, batch as nat, texts(figures@)),
{
    let mut fields: Vec<String> = Vec::new();
    fields.push(timestamp.to_owned());
    fields.push(decimal_text(epoch as u64));
    fields.push(decimal_text(batch as u64));
    assert(texts(fields@) =~= seq![timestamp@, decimal(epoch as nat), decimal(batch as nat)]);
    add_items(&mut fields, figures);
    let mut r: String = comma_row(&fields);
    r.append("\n");
    r
}

/// A row of an evaluation table.
pub open spec fn evaluation_line(timestamp: Seq<char>, batch: nat, figures: Seq<Seq<char>>) -> Seq<char> {
    comma_separated(seq![timestamp, decimal(batch)] + figures) + "\n"@
}

/// A row of an evaluation table: the time, the batch, then the figures as they are to be
/// shown.
pub fn evaluation_row(timestamp: &str, batch: usize, figures: &Vec<String>) -> (r: String)
    ensures
        r@ == evaluation_line(timestamp@, batch as nat, texts(figures@)),
{
    let mut fields: Vec<String> = Vec::new();
    fields.push(timestamp.to_owned());
    fields.push(decimal_text(batch as u64));
    assert(texts(fields@) =~= seq![timestamp@, decimal(batch as nat)]);
    add_items(&mut fields, figures);
    let mut r: String = comma_row(&fields);
    r.append("\n");
    r
}

/// The report on a training step.
pub open spec fn step_text(epoch: nat, total_epochs: nat, batch: nat, figures: Seq<Seq<char>>) -> Seq<char> {
    interleaved(
        seq![
            "[Epoch ",
            "/",
            " | Batch ",
            "] Loss: ",
            " (EMA: ",
            ") | Halt: ",
            "% | Gini: ",
            " | Hops: ",
            "",
        ],
        seq![
            right_aligned(decimal(epoch), 2),
            right_aligned(decimal(total_epochs), 2),
            right_aligned(decimal(batch), 4),
        ] + figures,
    )
}

/// The report on a training step. The figures are the loss, its moving average, the share of
/// settled particles in percent, the inequality of utilization and the mean hops.
pub fn step_message(epoch: usize, total_epochs: usize, batch: usize, figures: &Vec<String>) -> (r: String)
    requires
        figures@.len() == 5,
    ensures
        r@ == step_text(epoch as nat, total_epochs as nat, batch as nat, texts(figures@)),
{
    let pieces: Vec<&str> = vec![
        "[Epoch ",
        "/",
        " | Batch ",
        "] Loss: ",
        " (EMA: ",
        ") | Halt: ",
        "% | Gini: ",
        " | Hops: ",
        "",
    ];
    let mut values: Vec<String> = Vec::new();
    values.push(aligned_decimal(epoch as u64, 2));
    values.push(aligned_decimal(total_epochs as u64, 2));
    values.push(aligned_decimal(batch as u64, 4));
    assert(texts(values@) =~= seq![
        right_aligned(decimal(epoch as nat), 2),
        right_aligned(decimal(total_epochs as nat), 2),
        right_aligned(decimal(batch as nat), 4),
    ]);
    add_items(&mut values, figures);
    assert(texts(values@).len() == 8);
    interleave(&pieces, &values)
}

/// The report on an evaluation step.
pub open spec fn evaluation_text(batch: nat, total_batches: nat, figures: Seq<Seq<char>>) -> Seq<char> {
    interleaved(
        seq![
            "[Eval Batch ",
            "/",
            "] NextMSE: ",
            " | CosSim: ",
            " | PSNR: ",
            " dB | TD-Loss: ",
            " | Halt: ",
            "% | Hops: ",
            "",
        ],
        seq![
            right_aligned(decimal(batch), 4),
            right_aligned(decimal(total_batches), 4),
        ] + figures,
    )
}

/// The report on an evaluation step. The figures are the error and the cosine of the next
/// row, the ratio of signal to noise, the loss, the share of settled particles in percent and
/// the mean hops.
pub fn evaluation_message(batch: usize, total_batches: usize, figures: &Vec<String>) -> (r: String)
    requires
        figures@.len() == 6,
    ensures
        r@ == evaluation_text(batch as nat, total_batches as nat, texts(figures@)),
{
    let pieces: Vec<&str> = vec![
        "[Eval Batch ",
        "/",
        "] NextMSE: ",
        " | CosSim: ",
        " | PSNR: ",
        " dB | TD-Loss: ",
        " | Halt: ",
        "% | Hops: ",
        "",
    ];
    let mut values: Vec<String> = Vec::new();
    values.push(aligned_decimal(batch as u64, 4));
    values.push(aligned_decimal(total_batches as u64, 4));
    assert(texts(values@) =~= seq![
        right_aligned(decimal(batch as nat), 4),
        right_aligned(decimal(total_batches as nat), 4),
    ]);
    add_items(&mut values, figures);
    assert(texts(values@).len() == 8);
    interleave(&pieces, &values)
}

/// The report on an epoch.
pub open spec fn epoch_text(epoch: nat, total_epochs: nat, figures: Seq<Seq<char>>) -> Seq<char> {
    interleaved(
        seq![
            "Epoch ",
            "/",
            " Metrics Summary:\n  - Avg Loss: ",
            "\n  - Avg Hop Count: ",
            "\n  - Early Halting Rate: ",
            "%\n  - Signal Energy (var): ",
            "\n  - Node Util Gini: ",
            "\n  - Attention Entropy: ",
            "\n  - Avg Active Subnodes: ",
            "\n  - Credit Volatility: ",
            "\n  - Mean Temporal Affinity: ",
            "",
        ],
        seq![decimal(epoch), decimal(total_epochs)] + figures,
    )
}

/// The report on an epoch. The figures are the loss, the mean hops, the share of settled
/// particles in percent, the energy, the inequality of utilization, the density of memory, the
/// subnodes, the volatility of credit and the affinity of successive tokens.
pub fn epoch_message(epoch: usize, total_epochs: usize, figures: &Vec<String>) -> (r: String)
    requires
        figures@.len() == 9,
    ensures
        r@ == epoch_text(epoch as nat, total_epochs as nat, texts(figures@)),
{
    let pieces: Vec<&str> = vec![
        "Epoch ",
        "/",
        " Metrics Summary:\n  - Avg Loss: ",
        "\n  - Avg Hop Count: ",
        "\n  - Early Halting Rate: ",
        "%\n  - Signal Energy (var): ",
        "\n  - Node Util Gini: ",
        "\n  - Attention Entropy: ",
        "\n  - Avg Active Subnodes: ",
        "\n  - Credit Volatility: ",
        "\n  - Mean Temporal Affinity: ",
        "",
    ];
    let mut values: Vec<String> = Vec::new();
    values.push(decimal_text(epoch as u64));
    values.push(decimal_text(total_epochs as u64));
    assert(texts(values@) =~= seq![decimal(epoch as nat), decimal(total_epochs as nat)]);
    add_items(&mut values, figures);
    assert(texts(values@).len() == 11);
    interleave(&pieces, &values)
}

/// The figures on associative recall, where there are any.
pub open spec fn recall_text(recall: Option<Vec<String>>) -> Seq<char> {
    match recall {
        Some(figures) => interleaved(
            seq![
                "\n  - Associative Key MSE: ",
                "\n  - Associative Key CosSim: ",
                "\n  - Key Retrieval Accuracy (CosSim > 0.9): ",
                "%",
            ],
            texts(figures@),
        ),
        None => Seq::empty(),
    }
}

/// The report on a whole evaluation, with that on associative recall at its end.
pub open spec fn summary_text(total_batches: nat, figures: Seq<Seq<char>>, recall: Seq<char>) -> Seq<char> {
    interleaved(
        seq![
            "=================================================================================\nANNP External Task Fidelity Evaluation Summary (",
            "/",
            " Batches Evaluated):\n---------------------------------------------------------------------------------\nExternal Task Accuracy Metrics:\n- Next-Token MSE (Mean +/- Std): ",
            " +/- ",
            "\n- Next-Token MSE (Median [Min, Max]): ",
            " [",
            ", ",
            "]\n- Next-Token 95th Percentile MSE: ",
            "\n- Next-Token Cosine Similarity: ",
            " +/- ",
            "\n- Next-Token MAE: ",
            "\n- Normalized MSE (NMSE): ",
            "\n- Peak Signal-to-Noise Ratio (PSNR): ",
            " dB\n- Direct Autoencoding MSE: ",
            "\nDual-Metric Physical Dynamics:\n- Internal Local TD-Loss (Mean +/- Std): ",
            " +/- ",
            "\n- TD-Loss to External-MSE Ratio: ",
            "\n- Early Halting Rate: ",
            "%\n- Average Hop Count: ",
            "\n- Active Subnodes: ",
            "",
            "\n=================================================================================",
        ],
        seq![decimal(total_batches), decimal(total_batches)] + figures.push(recall),
    )
}

/// The report on a whole evaluation. The figures stand in the order in which the report
/// names them. Those on associative recall are the error and the cosine of the keys, and the
/// share of keys that were found, in percent.
pub fn evaluation_summary(
    total_batches: usize,
    figures: &Vec<String>,
    recall: &Option<Vec<String>>,
) -> (r: String)
    requires
        figures@.len() == 18,
        *recall matches Some(more) ==> more@.len() == 3,
    ensures
        r@ == summary_text(total_batches as nat, texts(figures@), recall_text(*recall)),
{
    let last: String = match recall {
        Some(more) => {
            let around: Vec<&str> = vec![
                "\n  - Associative Key MSE: ",
                "\n  - Associative Key CosSim: ",
                "\n  - Key Retrieval Accuracy (CosSim > 0.9): ",
                "%",
            ];
            interleave(&around, more)
        },
        None => String::new(),
    };
    assert(last@ =~= recall_text(*recall));
    let pieces: Vec<&str> = vec![
        "=================================================================================\nANNP External Task Fidelity Evaluation Summary (",
        "/",
        " Batches Evaluated):\n---------------------------------------------------------------------------------\nExternal Task Accuracy Metrics:\n- Next-Token MSE (Mean +/- Std): ",
        " +/- ",
        "\n- Next-Token MSE (Median [Min, Max]): ",
        " [",
        ", ",
        "]\n- Next-Token 95th Percentile MSE: ",
        "\n- Next-Token Cosine Similarity: ",
        " +/- ",
        "\n- Next-Token MAE: ",
        "\n- Normalized MSE (NMSE): ",
        "\n- Peak Signal-to-Noise Ratio (PSNR): ",
        " dB\n- Direct Autoencoding MSE: ",
        "\nDual-Metric Physical Dynamics:\n- Internal Local TD-Loss (Mean +/- Std): ",
        " +/- ",
        "\n- TD-Loss to External-MSE Ratio: ",
        "\n- Early Halting Rate: ",
        "%\n- Average Hop Count: ",
        "\n- Active Subnodes: ",
        "",
        "\n=================================================================================",
    ];
    let mut values: Vec<String> = Vec::new();
    values.push(decimal_text(total_batches as u64));
    values.push(decimal_text(total_batches as u64));
    assert(texts(values@) =~= seq![decimal(total_batches as nat), decimal(total_batches as nat)]);
    add_items(&mut values, figures);
    assert(texts(values@).len() == 20);
    let ghost front = texts(values@);
    values.push(last);
    assert(texts(values@) =~= front.push(recall_text(*recall)));
    assert(texts(values@) =~= seq![decimal(total_batches as nat), decimal(total_batches as nat)]
        + texts(figures@).push(recall_text(*recall)));
    interleave(&pieces, &values)
}

/// A clock shows hours, minutes, seconds and milliseconds, in this order, whatever day it is.
pub proof fn law_a_clock_shows_the_hour(day: nat, hour: nat, minute: nat, second: nat, millis: nat)
    requires
        hour < 24,
        minute < 60,
        second < 60,
        millis < 1000,
    ensures
        time_of_day(86_400 * day + 3600 * hour + 60 * minute + second as int, millis as int)
            == padded(hour, 2) + ":"@ + padded(minute, 2) + ":"@ + padded(second, 2) + "."@ + padded(
            millis,
            3,
        ),
{
    let secs = 86_400 * day + 3600 * hour + 60 * minute + second as int;
    assert(secs / 3600 == 24 * day + hour);
    assert(secs / 3600 % 24 == hour);
    assert(secs / 60 == 1440 * day + 60 * hour + minute);
    assert(secs / 60 % 60 == minute);
    assert(secs % 60 == second);
}

/// A reading shows the time that lies as many milliseconds behind midnight.
pub proof fn law_readings_show_their_time(seconds: nat, millis: nat)
    requires
        millis < 1000,
        seconds <= u64::MAX,
    ensures
        shown_time(Some((1000 * seconds + millis) as u128)) == time_of_day(
            seconds as int,
            millis as int,
        ),
        shown_time(None) == time_of_day(0, 0),
{
    let ms = 1000 * seconds + millis;
    assert(ms / 1000 == seconds && ms % 1000 == millis);
}

/// Each node that grew has a line, in the order in which they are listed, with its number and
/// its subnodes before and after.
pub proof fn law_growth_has_a_line_each(details: Seq<(usize, usize, usize)>, n: int)
    requires
        0 <= n <= details.len(),
    ensures
        growth_lines(details, n) == crate::text::joined(
            Seq::new(
                n as nat,
                |i: int|
                    "\n  -> Node "@ + decimal(details[i].0 as nat) + ": subnodes "@ + decimal(
                        details[i].1 as nat,
                    ) + " -> "@ + decimal(details[i].2 as nat),
            ),
        ),
    decreases n,
{
    let line = |i: int|
        "\n  -> Node "@ + decimal(details[i].0 as nat) + ": subnodes "@ + decimal(
            details[i].1 as nat,
        ) + " -> "@ + decimal(details[i].2 as nat);
    let lines = Seq::new(n as nat, line);
    if n > 0 {
        law_growth_has_a_line_each(details, n - 1);
        assert(lines.drop_last() =~= Seq::new((n - 1) as nat, line));
        assert(growth_lines(details, n) =~= growth_lines(details, n - 1) + line(n - 1));
    } else {
        assert(lines =~= Seq::empty());
    }
}

/// What is left and what was cut are what there was, and nothing is left where more was cut.
pub proof fn law_cut_links_are_gone(before: int, pruned: int)
    requires
        0 <= pruned,
    ensures
        before >= pruned ==> remaining(before, pruned) + pruned == before,
        before <= pruned ==> remaining(before, pruned) == 0,
{
}


/// What 9 pieces around 8 values come to, one after the other.
proof fn lemma_turns_8(p: Seq<&str>, v: Seq<Seq<char>>)
    requires
        p.len() == 9,
        v.len() == 8,
    ensures
        Seq::new(
            2 * v.len() + 1,
            |i: int|
                if i % 2 == 0 {
                    p[i / 2]@
                } else {
                    v[i / 2]
                },
        ) == seq![
            p[0]@,
            v[0],
            p[1]@,
            v[1],
            p[2]@,
            v[2],
            p[3]@,
            v[3],
            p[4]@,
            v[4],
            p[5]@,
            v[5],
            p[6]@,
            v[6],
            p[7]@,
            v[7],
            p[8]@,
        ],
{
}

/// What 12 pieces around 11 values come to, one after the other.
proof fn lemma_turns_11(p: Seq<&str>, v: Seq<Seq<char>>)
    requires
        p.len() == 12,
        v.len() == 11,
    ensures
        Seq::new(
            2 * v.len() + 1,
            |i: int|
                if i % 2 == 0 {
                    p[i / 2]@
                } else {
                    v[i / 2]
                },
        ) == seq![
            p[0]@,
            v[0],
            p[1]@,
            v[1],
            p[2]@,
            v[2],
            p[3]@,
            v[3],
            p[4]@,
            v[4],
            p[5]@,
            v[5],
            p[6]@,
            v[6],
            p[7]@,
            v[7],
            p[8]@,
            v[8],
            p[9]@,
            v[9],
            p[10]@,
            v[10],
            p[11]@,
        ],
{
}

/// What 22 pieces around 21 values come to, one after the other.
proof fn lemma_turns_21(p: Seq<&str>, v: Seq<Seq<char>>)
    requires
        p.len() == 22,
        v.len() == 21,
    ensures
        Seq::new(
            2 * v.len() + 1,
            |i: int|
                if i % 2 == 0 {
                    p[i / 2]@
                } else {
                    v[i / 2]
                },
        ) == seq![
            p[0]@,
            v[0],
            p[1]@,
            v[1],
            p[2]@,
            v[2],
            p[3]@,
            v[3],
            p[4]@,
            v[4],
            p[5]@,
            v[5],
            p[6]@,
            v[6],
            p[7]@,
            v[7],
            p[8]@,
            v[8],
            p[9]@,
            v[9],
            p[10]@,
            v[10],
            p[11]@,
            v[11],
            p[12]@,
            v[12],
            p[13]@,
            v[13],
            p[14]@,
            v[14],
            p[15]@,
            v[15],
            p[16]@,
            v[16],
            p[17]@,
            v[17],
            p[18]@,
            v[18],
            p[19]@,
            v[19],
            p[20]@,
            v[20],
            p[21]@,
        ],
{
}

/// What 4 pieces around 3 values come to, one after the other.
proof fn lemma_turns_3(p: Seq<&str>, v: Seq<Seq<char>>)
    requires
        p.len() == 4,
        v.len() == 3,
    ensures
        Seq::new(
            2 * v.len() + 1,
            |i: int|
                if i % 2 == 0 {
                    p[i / 2]@
                } else {
                    v[i / 2]
                },
        ) == seq![
            p[0]@,
            v[0],
            p[1]@,
            v[1],
            p[2]@,
            v[2],
            p[3]@,
        ],
{
}

/// The report on a step names each of its figures.
pub proof fn law_steps_name_their_figures(epoch: nat, total_epochs: nat, batch: nat, figures: Seq<Seq<char>>)
    requires
        figures.len() == 5,
    ensures
        step_text(epoch, total_epochs, batch, figures) == joined(
            seq![
                "[Epoch "@,
                right_aligned(decimal(epoch), 2),
                "/"@,
                right_aligned(decimal(total_epochs), 2),
                " | Batch "@,
                right_aligned(decimal(batch), 4),
                "] Loss: "@,
                figures[0],
                " (EMA: "@,
                figures[1],
                ") | Halt: "@,
                figures[2],
                "% | Gini: "@,
                figures[3],
                " | Hops: "@,
                figures[4],
                ""@,
            ],
        ),
{
    let pieces = seq![
        "[Epoch ",
        "/",
        " | Batch ",
        "] Loss: ",
        " (EMA: ",
        ") | Halt: ",
        "% | Gini: ",
        " | Hops: ",
        "",
    ];
    let values = seq![
        right_aligned(decimal(epoch), 2),
        right_aligned(decimal(total_epochs), 2),
        right_aligned(decimal(batch), 4),
        figures[0],
        figures[1],
        figures[2],
        figures[3],
        figures[4],
    ];
    law_pieces_stand_around_values(pieces, values);
    lemma_turns_8(pieces, values);
    assert(seq![
            right_aligned(decimal(epoch), 2),
            right_aligned(decimal(total_epochs), 2),
            right_aligned(decimal(batch), 4),
        ] + figures =~= values);
}

/// The report on an evaluation step names each of its figures.
pub proof fn law_evaluations_name_their_figures(batch: nat, total_batches: nat, figures: Seq<Seq<char>>)
    requires
        figures.len() == 6,
    ensures
        evaluation_text(batch, total_batches, figures) == joined(
            seq![
                "[Eval Batch "@,
                right_aligned(decimal(batch), 4),
                "/"@,
                right_aligned(decimal(total_batches), 4),
                "] NextMSE: "@,
                figures[0],
                " | CosSim: "@,
                figures[1],
                " | PSNR: "@,
                figures[2],
                " dB | TD-Loss: "@,
                figures[3],
                " | Halt: "@,
                figures[4],
                "% | Hops: "@,
                figures[5],
                ""@,
            ],
        ),
{
    let pieces = seq![
        "[Eval Batch ",
        "/",
        "] NextMSE: ",
        " | CosSim: ",
        " | PSNR: ",
        " dB | TD-Loss: ",
        " | Halt: ",
        "% | Hops: ",
        "",
    ];
    let values = seq![
        right_aligned(decimal(batch), 4),
        right_aligned(decimal(total_batches), 4),
        figures[0],
        figures[1],
        figures[2],
        figures[3],
        figures[4],
        figures[5],
    ];
    law_pieces_stand_around_values(pieces, values);
    lemma_turns_8(pieces, values);
    assert(seq![
            right_aligned(decimal(batch), 4),
            right_aligned(decimal(total_batches), 4),
        ] + figures =~= values);
}

/// The report on an epoch names each of its figures.
pub proof fn law_epochs_name_their_figures(epoch: nat, total_epochs: nat, figures: Seq<Seq<char>>)
    requires
        figures.len() == 9,
    ensures
        epoch_text(epoch, total_epochs, figures) == joined(
            seq![
                "Epoch "@,
                decimal(epoch),
                "/"@,
                decimal(total_epochs),
                " Metrics Summary:\n  - Avg Loss: "@,
                figures[0],
                "\n  - Avg Hop Count: "@,
                figures[1],
                "\n  - Early Halting Rate: "@,
                figures[2],
                "%\n  - Signal Energy (var): "@,
                figures[3],
                "\n  - Node Util Gini: "@,
                figures[4],
                "\n  - Attention Entropy: "@,
                figures[5],
                "\n  - Avg Active Subnodes: "@,
                figures[6],
                "\n  - Credit Volatility: "@,
                figures[7],
                "\n  - Mean Temporal Affinity: "@,
                figures[8],
                ""@,
            ],
        ),
{
    let pieces = seq![
        "Epoch ",
        "/",
        " Metrics Summary:\n  - Avg Loss: ",
        "\n  - Avg Hop Count: ",
        "\n  - Early Halting Rate: ",
        "%\n  - Signal Energy (var): ",
        "\n  - Node Util Gini: ",
        "\n  - Attention Entropy: ",
        "\n  - Avg Active Subnodes: ",
        "\n  - Credit Volatility: ",
        "\n  - Mean Temporal Affinity: ",
        "",
    ];
    let values = seq![
        decimal(epoch),
        decimal(total_epochs),
        figures[0],
        figures[1],
        figures[2],
        figures[3],
        figures[4],
        figures[5],
        figures[6],
        figures[7],
        figures[8],
    ];
    law_pieces_stand_around_values(pieces, values);
    lemma_turns_11(pieces, values);
    assert(seq![decimal(epoch), decimal(total_epochs)] + figures =~= values);
}

/// The report on a whole evaluation names each of its figures, and ends with what is to be said
/// on recall.
pub proof fn law_summaries_name_their_figures(total_batches: nat, figures: Seq<Seq<char>>, recall: Seq<char>)
    requires
        figures.len() == 18,
    ensures
        summary_text(total_batches, figures, recall) == joined(
            seq![
                "=================================================================================\nANNP External Task Fidelity Evaluation Summary ("@,
                decimal(total_batches),
                "/"@,
                decimal(total_batches),
                " Batches Evaluated):\n---------------------------------------------------------------------------------\nExternal Task Accuracy Metrics:\n- Next-Token MSE (Mean +/- Std): "@,
                figures[0],
                " +/- "@,
                figures[1],
                "\n- Next-Token MSE (Median [Min, Max]): "@,
                figures[2],
                " ["@,
                figures[3],
                ", "@,
                figures[4],
                "]\n- Next-Token 95th Percentile MSE: "@,
                figures[5],
                "\n- Next-Token Cosine Similarity: "@,
                figures[6],
                " +/- "@,
                figures[7],
                "\n- Next-Token MAE: "@,
                figures[8],
                "\n- Normalized MSE (NMSE): "@,
                figures[9],
                "\n- Peak Signal-to-Noise Ratio (PSNR): "@,
                figures[10],
                " dB\n- Direct Autoencoding MSE: "@,
                figures[11],
                "\nDual-Metric Physical Dynamics:\n- Internal Local TD-Loss (Mean +/- Std): "@,
                figures[12],
                " +/- "@,
                figures[13],
                "\n- TD-Loss to External-MSE Ratio: "@,
                figures[14],
                "\n- Early Halting Rate: "@,
                figures[15],
                "%\n- Average Hop Count: "@,
                figures[16],
                "\n- Active Subnodes: "@,
                figures[17],
                ""@,
                recall,
                "\n================================================================================="@,
            ],
        ),
{
    let pieces = seq![
        "=================================================================================\nANNP External Task Fidelity Evaluation Summary (",
        "/",
        " Batches Evaluated):\n---------------------------------------------------------------------------------\nExternal Task Accuracy Metrics:\n- Next-Token MSE (Mean +/- Std): ",
        " +/- ",
        "\n- Next-Token MSE (Median [Min, Max]): ",
        " [",
        ", ",
        "]\n- Next-Token 95th Percentile MSE: ",
        "\n- Next-Token Cosine Similarity: ",
        " +/- ",
        "\n- Next-Token MAE: ",
        "\n- Normalized MSE (NMSE): ",
        "\n- Peak Signal-to-Noise Ratio (PSNR): ",
        " dB\n- Direct Autoencoding MSE: ",
        "\nDual-Metric Physical Dynamics:\n- Internal Local TD-Loss (Mean +/- Std): ",
        " +/- ",
        "\n- TD-Loss to External-MSE Ratio: ",
        "\n- Early Halting Rate: ",
        "%\n- Average Hop Count: ",
        "\n- Active Subnodes: ",
        "",
        "\n=================================================================================",
    ];
    let values = seq![
        decimal(total_batches),
        decimal(total_batches),
        figures[0],
        figures[1],
        figures[2],
        figures[3],
        figures[4],
        figures[5],
        figures[6],
        figures[7],
        figures[8],
        figures[9],
        figures[10],
        figures[11],
        figures[12],
        figures[13],
        figures[14],
        figures[15],
        figures[16],
        figures[17],
        recall,
    ];
    law_pieces_stand_around_values(pieces, values);
    lemma_turns_21(pieces, values);
    assert(seq![decimal(total_batches), decimal(total_batches)] + figures.push(recall) =~= values);
}

/// An entry of a log shows when, by whom and what, in this order, on one line. The name of a log
/// file shows what it is for and when it was begun.
pub proof fn law_entries_show_time_tag_and_text(
    timestamp: Seq<char>,
    tag: Seq<char>,
    msg: Seq<char>,
    prefix: Seq<char>,
    secs: nat,
)
    ensures
        log_entry(timestamp, tag, msg) == joined(
            seq!["["@, timestamp, "] "@, tag, " | "@, msg, "\n"@],
        ),
        log_file(prefix, secs) == joined(seq![prefix, "_"@, decimal(secs), ".log"@]),
{
    let entry = seq!["["@, timestamp, "] "@, tag, " | "@, msg, "\n"@];
    law_joined_keeps_parts(seq!["["@], Seq::empty());
    lemma_joined(entry.take(1), timestamp);
    lemma_joined(entry.take(2), "] "@);
    lemma_joined(entry.take(3), tag);
    lemma_joined(entry.take(4), " | "@);
    lemma_joined(entry.take(5), msg);
    lemma_joined(entry.take(6), "\n"@);
    assert(entry.take(1) =~= seq!["["@]);
    assert(entry.take(2) =~= entry.take(1).push(timestamp));
    assert(entry.take(3) =~= entry.take(2).push("] "@));
    assert(entry.take(4) =~= entry.take(3).push(tag));
    assert(entry.take(5) =~= entry.take(4).push(" | "@));
    assert(entry.take(6) =~= entry.take(5).push(msg));
    assert(entry =~= entry.take(6).push("\n"@));
    let file = seq![prefix, "_"@, decimal(secs), ".log"@];
    law_joined_keeps_parts(seq![prefix], Seq::empty());
    lemma_joined(file.take(1), "_"@);
    lemma_joined(file.take(2), decimal(secs));
    lemma_joined(file.take(3), ".log"@);
    assert(file.take(1) =~= seq![prefix]);
    assert(file.take(2) =~= file.take(1).push("_"@));
    assert(file.take(3) =~= file.take(2).push(decimal(secs)));
    assert(file =~= file.take(3).push(".log"@));
}

proof fn lemma_joined(front: Seq<Seq<char>>, last: Seq<char>)
    ensures
        joined(front.push(last)) == joined(front) + last,
{
    assert(front.push(last).drop_last() =~= front);
}

/// The report on a hardening pass says how many links were cut and how many are left, and ends
/// with the lines of the nodes that grew.
pub proof fn law_hardening_says_what_is_left(
    epoch: nat,
    links_pruned: nat,
    links_left: nat,
    nodes_grown: nat,
    details: Seq<(usize, usize, usize)>,
)
    ensures
        hardening_text(epoch, (links_left + links_pruned) as int, links_pruned, nodes_grown, details)
            == "Hardening Pass (Epoch "@ + decimal(epoch) + "): Pruned "@ + decimal(links_pruned)
            + " links (Remaining: "@ + decimal(links_left) + "). Spawned "@ + decimal(nodes_grown)
            + " local subnodes."@ + growth_lines(details, details.len() as int),
{
}

/// A row of a table holds its fields with one comma between them and ends its line: the time,
/// the epoch and batch, or the batch alone, and behind them the figures.
pub proof fn law_rows_hold_time_place_and_figures(
    timestamp: Seq<char>,
    epoch: nat,
    batch: nat,
    figures: Seq<Seq<char>>,
)
    requires
        figures.len() > 0,
    ensures
        training_line(timestamp, epoch, batch, figures) == timestamp + ","@ + decimal(epoch) + ","@
            + decimal(batch) + ","@ + comma_separated(figures) + "\n"@,
        evaluation_line(timestamp, batch, figures) == timestamp + ","@ + decimal(batch) + ","@
            + comma_separated(figures) + "\n"@,
{
    let (t, e, b) = (seq![timestamp], seq![decimal(epoch)], seq![decimal(batch)]);
    reveal_strlit(",");
    assert(","@ =~= seq![',']);
    law_one_comma_between_fields(t, e);
    law_one_comma_between_fields(t + e, b);
    law_one_comma_between_fields(t + e + b, figures);
    law_one_comma_between_fields(t, b);
    law_one_comma_between_fields(t + b, figures);
    assert(t + e + b =~= seq![timestamp, decimal(epoch), decimal(batch)]);
    assert(t + b =~= seq![timestamp, decimal(batch)]);
    assert(comma_separated(t) == timestamp && comma_separated(e) == decimal(epoch)
        && comma_separated(b) == decimal(batch));
    let (c, last) = (","@, comma_separated(figures));
    let head = comma_separated(t + e + b);
    assert(head == timestamp + c + decimal(epoch) + c + decimal(batch));
    assert(comma_separated(t + e + b + figures) == head + c + last);
    assert(comma_separated(t + b + figures) == timestamp + c + decimal(batch) + c + last);
}

} // verus!
