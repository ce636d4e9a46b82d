//! Exports of a checkpoint's topology and of datasets.
use crate::bytes::{le_scalars, put_scalars, put_usize};
use crate::checkpoint::{ModelCheckpoint, ModelRecord, NodeRecord};
use crate::mesh::routing_models;
use crate::metrics::OnlineStats;
use crate::model::{lemma_total_step, total};
use crate::order::{sorted_order, stable_order};
use crate::scalar::Scalar;
use crate::text::{
    add_items, comma_row, comma_separated, decimal, decimal_text, joined, left_aligned, lowercased,
    put_decimal, put_left_aligned, same_text, texts, to_lowercase,
};
use crate::topology::{RoutingModel, RoutingTable};
use crate::words::le32;
use vstd::prelude::*;

verus! {

/// Forms in which a topology is exported.
#[derive(Clone, Copy, Debug, PartialEq, Eq, Structural)]
pub enum ExportFormat {
    Json,
    Dot,
    Csv,
    Summary,
}

/// The form that a name stands for.
pub open spec fn export_of(name: Seq<char>) -> ExportFormat {
    if name == "dot"@ || name == "gv"@ {
        ExportFormat::Dot
    } else if name == "csv"@ {
        ExportFormat::Csv
    } else if name == "summary"@ || name == "txt"@ {
        ExportFormat::Summary
    } else {
        ExportFormat::Json
    }
}

/// The form that a name stands for.
pub fn export_named(name: &str) -> (r: ExportFormat)
    ensures
        r == export_of(name@),
{
    if same_text(name, "dot") || same_text(name, "gv") {
        ExportFormat::Dot
    } else if same_text(name, "csv") {
        ExportFormat::Csv
    } else if same_text(name, "summary") || same_text(name, "txt") {
        ExportFormat::Summary
    } else {
        ExportFormat::Json
    }
}

/// The form of an export: by the name given, else by the extension in lower case, else JSON.
pub open spec fn export_chosen(format: Option<Seq<char>>, extension: Option<Seq<char>>) -> ExportFormat {
    match (format, extension) {
        (Some(f), _) => export_of(f),
        (None, Some(e)) => export_of(e),
        (None, None) => ExportFormat::Json,
    }
}

/// The form of an export: the one asked for, taken as it is written, or else that of the
/// output path's extension in whatever case.
pub fn choose_export(format: &Option<String>, extension: &Option<String>) -> (r: ExportFormat)
    ensures
        r == export_chosen(
            match *format {
                Some(f) => Some(f@),
                None => None,
            },
            match *extension {
                Some(e) => Some(lowercased(e@)),
                None => None,
            },
        ),
        *format is None ==> (*extension matches Some(e) ==> vstd::utf8::is_ascii_chars(e@) ==> r
            == export_of(crate::text::ascii_lowercased(e@))),
{
    match format {
        Some(f) => export_named(f.as_str()),
        None => match extension {
            Some(e) => {
                let lower: String = to_lowercase(e.as_str());
                export_named(lower.as_str())
            },
            None => ExportFormat::Json,
        },
    }
}

/// The figures of a link, as they are to be shown.
#[derive(Debug)]
pub struct EdgeFigures {
    pub mean: String,
    pub variance: String,
    pub count: String,
    pub norm: String,
}

/// The credit of a link, where it is kept.
pub open spec fn credit_of(table: RoutingModel, k: int) -> Option<OnlineStats> {
    if 0 <= k < table.edge_credit.len() {
        Some(table.edge_credit[k])
    } else {
        None
    }
}

/// Whether a link has earned or lost credit.
pub open spec fn is_active(table: RoutingModel, k: int) -> bool {
    credit_of(table, k) matches Some(stats) && Scalar::zero().below(stats.count)
}

fn credit_at(table: &RoutingTable, k: usize) -> (r: Option<OnlineStats>)
    ensures
        r == credit_of(table@, k as int),
{
    if k < table.edge_credit.len() {
        Some(table.edge_credit[k])
    } else {
        None
    }
}

fn active(table: &RoutingTable, k: usize) -> (r: bool)
    ensures
        r == is_active(table@, k as int),
{
    match credit_at(table, k) {
        Some(stats) => Scalar::zero().lt(stats.count),
        None => false,
    }
}

/// The declaration of a node in a graph.
pub open spec fn dot_node(node: NodeRecord, energy: Seq<char>) -> Seq<char> {
    "  node_"@ + decimal(node.node_id as nat) + " [label=\"Node "@ + decimal(node.node_id as nat)
        + "\\nsubnodes: "@ + decimal(node.subnodes.len()) + "\\nenergy: "@ + energy + "\"];\n"@
}

/// The declarations of the first `n` nodes.
pub open spec fn dot_nodes(nodes: Seq<NodeRecord>, energies: Seq<String>, n: int) -> Seq<char>
    decreases n,
{
    if n <= 0 {
        Seq::empty()
    } else {
        dot_nodes(nodes, energies, n - 1) + dot_node(nodes[n - 1], energies[n - 1]@)
    }
}

/// What a link of a graph is labelled with.
pub open spec fn dot_label(table: RoutingModel, k: int, figures: EdgeFigures) -> Seq<char> {
    if is_active(table, k) {
        "μ="@ + figures.mean@ + ", n="@ + figures.count@
    } else {
        "init"@
    }
}

/// How wide a link of a graph is drawn.
pub open spec fn dot_width(table: RoutingModel, k: int) -> Seq<char> {
    if credit_of(table, k) matches Some(stats) && Scalar::zero().below(stats.mean) {
        "1.8"@
    } else {
        "0.8"@
    }
}

/// The first `k` links of a node in a graph.
pub open spec fn dot_edges(src: int, table: RoutingModel, figures: Seq<EdgeFigures>, k: int) -> Seq<char>
    decreases k,
{
    if k <= 0 {
        Seq::empty()
    } else {
        dot_edges(src, table, figures, k - 1) + "  node_"@ + decimal(src as nat) + " -> node_"@
            + decimal(table.neighbors[k - 1] as nat) + " [label=\""@ + dot_label(
            table,
            k - 1,
            figures[k - 1],
        ) + "\", penwidth="@ + dot_width(table, k - 1) + "];\n"@
    }
}

/// The links of the first `n` nodes.
pub open spec fn dot_tables(tables: Seq<RoutingModel>, figures: Seq<Vec<EdgeFigures>>, n: int) -> Seq<char>
    decreases n,
{
    if n <= 0 {
        Seq::empty()
    } else {
        dot_tables(tables, figures, n - 1) + dot_edges(
            n - 1,
            tables[n - 1],
            figures[n - 1]@,
            tables[n - 1].neighbors.len() as int,
        )
    }
}

/// What a graph begins with.
pub open spec fn dot_head() -> Seq<char> {
    "digraph ANNP_Mesh_Topology {\n"@
        + "  graph [rankdir=LR, bgcolor=\"#ffffff\", fontname=\"Helvetica\"];\n"@
        + "  node [shape=box, style=\"rounded,filled\", fillcolor=\"#f0f4f8\", color=\"#627d98\", fontname=\"Helvetica\", fontsize=10];\n"@
        + "  edge [fontname=\"Helvetica\", fontsize=8, color=\"#829ab1\"];\n\n"@
}

/// Whether there are figures for each link.
pub open spec fn figures_fit(tables: Seq<RoutingModel>, figures: Seq<Vec<EdgeFigures>>) -> bool {
    &&& figures.len() == tables.len()
    &&& forall|i: int|
        0 <= i < tables.len() ==> #[trigger] figures[i]@.len() == tables[i].neighbors.len()
}

fn put_dot_edge(out: &mut String, src: usize, table: &RoutingTable, k: usize, figures: &EdgeFigures)
    requires
        k < table.neighbors.len(),
    ensures
        final(out)@ == old(out)@ + "  node_"@ + decimal(src as nat) + " -> node_"@ + decimal(
            table.neighbors@[k as int] as nat,
        ) + " [label=\""@ + dot_label(table@, k as int, *figures) + "\", penwidth="@ + dot_width(
            table@,
            k as int,
        ) + "];\n"@,
{
    out.append("  node_");
    put_decimal(out, src as u64);
    out.append(" -> node_");
    put_decimal(out, table.neighbors[k] as u64);
    out.append(" [label=\"");
    let ghost before = out@;
    if active(table, k) {
        out.append("μ=");
        out.append(figures.mean.as_str());
        out.append(", n=");
        out.append(figures.count.as_str());
    } else {
        out.append("init");
    }
    assert(out@ =~= before + dot_label(table@, k as int, *figures));
    out.append("\", penwidth=");
    let wide: bool = match credit_at(table, k) {
        Some(stats) => Scalar::zero().lt(stats.mean),
        None => false,
    };
    if wide {
        out.append("1.8");
    } else {
        out.append("0.8");
    }
    out.append("];\n");
}

/// A checkpoint as a graph: its head, the nodes, then the links of each node.
pub open spec fn dot_text(r: ModelRecord, energies: Seq<String>, figures: Seq<Vec<EdgeFigures>>) -> Seq<
    char,
> {
    dot_head() + dot_nodes(r.nodes, energies, r.nodes.len() as int) + "\n"@ + dot_tables(
        r.routing_tables,
        figures,
        r.routing_tables.len() as int,
    ) + "}\n"@
}

/// The topology as a graph for Graphviz. The energies of the nodes and the figures of the
/// links are given as they are to be shown.
pub fn export_dot(
    checkpoint: &ModelCheckpoint,
    energies: &Vec<String>,
    figures: &Vec<Vec<EdgeFigures>>,
) -> (r: String)
    requires
        energies@.len() == checkpoint.nodes@.len(),
        figures_fit(checkpoint@.routing_tables, figures@),
    ensures
        r@ == dot_text(checkpoint@, energies@, figures@),
{
    let ghost nodes = checkpoint@.nodes;
    let ghost tables = checkpoint@.routing_tables;
    let mut out: String = "digraph ANNP_Mesh_Topology {\n".to_owned();
    out.append("  graph [rankdir=LR, bgcolor=\"#ffffff\", fontname=\"Helvetica\"];\n");
    out.append(
        "  node [shape=box, style=\"rounded,filled\", fillcolor=\"#f0f4f8\", color=\"#627d98\", fontname=\"Helvetica\", fontsize=10];\n",
    );
    out.append("  edge [fontname=\"Helvetica\", fontsize=8, color=\"#829ab1\"];\n\n");
    let mut i: usize = 0;
    assert(out@ =~= dot_head() + dot_nodes(nodes, energies@, 0));
    while i < checkpoint.nodes.len()
        invariant
            i <= checkpoint.nodes.len(),
            nodes == checkpoint@.nodes,
            energies@.len() == checkpoint.nodes@.len(),
            out@ == dot_head() + dot_nodes(nodes, energies@, i as int),
        decreases checkpoint.nodes.len() - i,
    {
        let node = &checkpoint.nodes[i];
        assert(nodes[i as int] == node@);
        out.append("  node_");
        put_decimal(&mut out, node.node_id as u64);
        out.append(" [label=\"Node ");
        put_decimal(&mut out, node.node_id as u64);
        out.append("\\nsubnodes: ");
        put_decimal(&mut out, node.subnodes.len() as u64);
        out.append("\\nenergy: ");
        out.append(energies[i].as_str());
        out.append("\"];\n");
        i += 1;
        assert(out@ =~= dot_head() + dot_nodes(nodes, energies@, i as int));
    }
    out.append("\n");
    let ghost head = out@;
    let mut s: usize = 0;
    assert(out@ =~= head + dot_tables(tables, figures@, 0));
    while s < checkpoint.routing_tables.len()
        invariant
            s <= checkpoint.routing_tables.len(),
            tables == routing_models(checkpoint.routing_tables@),
            figures_fit(tables, figures@),
            out@ == head + dot_tables(tables, figures@, s as int),
        decreases checkpoint.routing_tables.len() - s,
    {
        let table = &checkpoint.routing_tables[s];
        assert(tables[s as int] == table@);
        let row = &figures[s];
        assert(figures@[s as int]@.len() == tables[s as int].neighbors.len());
        let ghost front = out@;
        let mut k: usize = 0;
        assert(out@ =~= front + dot_edges(s as int, table@, row@, 0));
        while k < table.neighbors.len()
            invariant
                k <= table.neighbors.len(),
                row@.len() == table.neighbors@.len(),
                out@ == front + dot_edges(s as int, table@, row@, k as int),
            decreases table.neighbors.len() - k,
        {
            put_dot_edge(&mut out, s, table, k, &row[k]);
            k += 1;
            assert(out@ =~= front + dot_edges(s as int, table@, row@, k as int));
        }
        s += 1;
        assert(out@ =~= head + dot_tables(tables, figures@, s as int));
    }
    out.append("}\n");
    out
}

/// The weights of a link: its column of the table, as far as the table reaches.
pub open spec fn link_weights(table: RoutingModel, k: int, n: int) -> Seq<Scalar>
    decreases n,
{
    if n <= 0 {
        Seq::empty()
    } else {
        let front = link_weights(table, k, n - 1);
        let i = (n - 1) * table.neighbors.len() + k;
        if i < table.weights.len() {
            front.push(table.weights[i])
        } else {
            front
        }
    }
}

/// The weights of a link, over which its norm is taken.
pub fn edge_weights(table: &RoutingTable, d_head: usize, k: usize) -> (r: Vec<Scalar>)
    requires
        k < table.neighbors.len(),
        d_head * table.neighbors.len() <= usize::MAX,
    ensures
        r@ == link_weights(table@, k as int, d_head as int),
{
    let n: usize = table.neighbors.len();
    let mut r: Vec<Scalar> = Vec::new();
    let mut d: usize = 0;
    while d < d_head
        invariant
            d <= d_head,
            n == table.neighbors.len(),
            k < n,
            d_head * n <= usize::MAX,
            r@ == link_weights(table@, k as int, d as int),
        decreases d_head - d,
    {
        assert(0 <= d * n && d * n + n <= d_head * n) by (nonlinear_arith)
            requires
                d < d_head,
                0 <= n,
        ;
        let i: usize = d * n + k;
        if i < table.weights.len() {
            r.push(table.weights[i]);
        }
        d += 1;
    }
    r
}

/// A link as a row of a table. Without credit its figures are zero.
pub open spec fn csv_edge(src: int, table: RoutingModel, k: int, figures: EdgeFigures) -> Seq<Seq<char>> {
    let kept = credit_of(table, k) is Some;
    seq![
        decimal(src as nat),
        decimal(table.neighbors[k] as nat),
        decimal(k as nat),
        if kept {
            figures.mean@
        } else {
            "0.00000000"@
        },
        if kept {
            figures.variance@
        } else {
            "0.00000000"@
        },
        if kept {
            figures.count@
        } else {
            "0"@
        },
        figures.norm@,
    ]
}

/// The first `k` links of a node as rows.
pub open spec fn csv_edges(src: int, table: RoutingModel, figures: Seq<EdgeFigures>, k: int) -> Seq<char>
    decreases k,
{
    if k <= 0 {
        Seq::empty()
    } else {
        csv_edges(src, table, figures, k - 1) + comma_separated(
            csv_edge(src, table, k - 1, figures[k - 1]),
        ) + "\n"@
    }
}

/// The links of the first `n` nodes as rows.
pub open spec fn csv_tables(tables: Seq<RoutingModel>, figures: Seq<Vec<EdgeFigures>>, n: int) -> Seq<char>
    decreases n,
{
    if n <= 0 {
        Seq::empty()
    } else {
        csv_tables(tables, figures, n - 1) + csv_edges(
            n - 1,
            tables[n - 1],
            figures[n - 1]@,
            tables[n - 1].neighbors.len() as int,
        )
    }
}

/// The first row of a table of links.
pub open spec fn csv_head() -> Seq<char> {
    "source_node,target_node,edge_index,mean_credit,variance_credit,observation_count,weight_norm\n"@
}

fn csv_row(src: usize, table: &RoutingTable, k: usize, figures: &EdgeFigures) -> (r: String)
    requires
        k < table.neighbors.len(),
    ensures
        r@ == comma_separated(csv_edge(src as int, table@, k as int, *figures)),
{
    let mut fields: Vec<String> = Vec::new();
    fields.push(decimal_text(src as u64));
    fields.push(decimal_text(table.neighbors[k] as u64));
    fields.push(decimal_text(k as u64));
    match credit_at(table, k) {
        Some(_) => {
            fields.push(figures.mean.clone());
            fields.push(figures.variance.clone());
            fields.push(figures.count.clone());
        },
        None => {
            fields.push("0.00000000".to_owned());
            fields.push("0.00000000".to_owned());
            fields.push("0".to_owned());
        },
    }
    fields.push(figures.norm.clone());
    assert(texts(fields@) =~= csv_edge(src as int, table@, k as int, *figures));
    comma_row(&fields)
}

/// The links of a checkpoint as a table: its header, then the links of each node.
pub open spec fn csv_text(r: ModelRecord, figures: Seq<Vec<EdgeFigures>>) -> Seq<char> {
    csv_head() + csv_tables(r.routing_tables, figures, r.routing_tables.len() as int)
}

/// The topology as a table of links.
pub fn export_csv(checkpoint: &ModelCheckpoint, figures: &Vec<Vec<EdgeFigures>>) -> (r: String)
    requires
        figures_fit(checkpoint@.routing_tables, figures@),
    ensures
        r@ == csv_text(checkpoint@, figures@),
{
    let ghost tables = checkpoint@.routing_tables;
    let mut out: String =
        "source_node,target_node,edge_index,mean_credit,variance_credit,observation_count,weight_norm\n".to_owned();
    let mut s: usize = 0;
    assert(out@ =~= csv_head() + csv_tables(tables, figures@, 0));
    while s < checkpoint.routing_tables.len()
        invariant
            s <= checkpoint.routing_tables.len(),
            tables == routing_models(checkpoint.routing_tables@),
            figures_fit(tables, figures@),
            out@ == csv_head() + csv_tables(tables, figures@, s as int),
        decreases checkpoint.routing_tables.len() - s,
    {
        let table = &checkpoint.routing_tables[s];
        assert(tables[s as int] == table@);
        let row = &figures[s];
        assert(figures@[s as int]@.len() == tables[s as int].neighbors.len());
        let ghost front = out@;
        let mut k: usize = 0;
        assert(out@ =~= front + csv_edges(s as int, table@, row@, 0));
        while k < table.neighbors.len()
            invariant
                k <= table.neighbors.len(),
                row@.len() == table.neighbors@.len(),
                out@ == front + csv_edges(s as int, table@, row@, k as int),
            decreases table.neighbors.len() - k,
        {
            let line: String = csv_row(s, table, k, &row[k]);
            out.append(line.as_str());
            out.append("\n");
            k += 1;
            assert(out@ =~= front + csv_edges(s as int, table@, row@, k as int));
        }
        s += 1;
        assert(out@ =~= csv_head() + csv_tables(tables, figures@, s as int));
    }
    out
}

/// The active ones of the first `k` links of a node.
pub open spec fn active_links(src: int, table: RoutingModel, k: int) -> Seq<(usize, usize)>
    decreases k,
{
    if k <= 0 {
        Seq::empty()
    } else {
        let front = active_links(src, table, k - 1);
        if is_active(table, k - 1) {
            front.push((src as usize, (k - 1) as usize))
        } else {
            front
        }
    }
}

/// The active links of the first `n` nodes, as pairs of a node and a place in its table.
pub open spec fn all_active(tables: Seq<RoutingModel>, n: int) -> Seq<(usize, usize)>
    decreases n,
{
    if n <= 0 {
        Seq::empty()
    } else {
        all_active(tables, n - 1) + active_links(
            n - 1,
            tables[n - 1],
            tables[n - 1].neighbors.len() as int,
        )
    }
}

/// Keys by which links are ranked: the higher the mean credit, the earlier.
pub open spec fn credit_keys(tables: Seq<RoutingModel>, list: Seq<(usize, usize)>) -> Seq<i128> {
    list.map_values(
        |e: (usize, usize)|
            (-tables[e.0 as int].edge_credit[e.1 as int].mean.position()) as i128,
    )
}

/// A line of the report on links, in five columns.
pub open spec fn summary_line(a: Seq<char>, b: Seq<char>, c: Seq<char>, d: Seq<char>, e: Seq<char>) -> Seq<char> {
    left_aligned(a, 10) + " "@ + left_aligned(b, 10) + " "@ + left_aligned(c, 15) + " "@ + left_aligned(
        d,
        12,
    ) + " "@ + left_aligned(e, 15) + "\n"@
}

fn put_summary_line(out: &mut String, a: &str, b: &str, c: &str, d: &str, e: &str)
    ensures
        final(out)@ == old(out)@ + summary_line(a@, b@, c@, d@, e@),
{
    let mut line: String = String::new();
    put_left_aligned(&mut line, a, 10);
    assert(line@ =~= left_aligned(a@, 10));
    line.append(" ");
    put_left_aligned(&mut line, b, 10);
    line.append(" ");
    put_left_aligned(&mut line, c, 15);
    line.append(" ");
    put_left_aligned(&mut line, d, 12);
    line.append(" ");
    put_left_aligned(&mut line, e, 15);
    line.append("\n");
    assert(line@ == summary_line(a@, b@, c@, d@, e@));
    out.append(line.as_str());
}

/// A link as a line of the report.
pub open spec fn summary_edge(
    tables: Seq<RoutingModel>,
    figures: Seq<Vec<EdgeFigures>>,
    e: (usize, usize),
) -> Seq<char> {
    let f = figures[e.0 as int]@[e.1 as int];
    summary_line(
        decimal(e.0 as nat),
        decimal(tables[e.0 as int].neighbors[e.1 as int] as nat),
        f.mean@,
        f.count@,
        f.variance@,
    )
}

/// The first `n` lines of the report on links.
pub open spec fn summary_edges(
    tables: Seq<RoutingModel>,
    figures: Seq<Vec<EdgeFigures>>,
    list: Seq<(usize, usize)>,
    n: int,
) -> Seq<char>
    decreases n,
{
    if n <= 0 {
        Seq::empty()
    } else {
        summary_edges(tables, figures, list, n - 1) + summary_edge(
            tables,
            figures,
            list[sorted_order(credit_keys(tables, list))[n - 1] as int],
        )
    }
}

/// How many links the report shows.
pub open spec fn shown(n: int) -> int {
    if n < 20 {
        n
    } else {
        20
    }
}

/// The report on the links of highest credit.
pub open spec fn summary_links(tables: Seq<RoutingModel>, figures: Seq<Vec<EdgeFigures>>) -> Seq<char> {
    let list = all_active(tables, tables.len() as int);
    if list.len() == 0 {
        "No active edge credit statistics recorded yet.\n"@
    } else {
        summary_line("Source"@, "Target"@, "Mean Credit"@, "Count"@, "Variance"@)
            + "-----------------------------------------------------------------\n"@
            + summary_edges(tables, figures, list, shown(list.len() as int))
    }
}

/// Whether a pair names a link that keeps credit.
pub open spec fn names_link(tables: Seq<RoutingModel>, e: (usize, usize)) -> bool {
    &&& 0 <= e.0 < tables.len()
    &&& 0 <= e.1 < tables[e.0 as int].neighbors.len()
    &&& is_active(tables[e.0 as int], e.1 as int)
}

/// The active links, each of which keeps credit.
fn collect_active(tables: &Vec<RoutingTable>) -> (r: Vec<(usize, usize)>)
    ensures
        r@ == all_active(routing_models(tables@), tables@.len() as int),
        forall|i: int| 0 <= i < r@.len() ==> names_link(routing_models(tables@), #[trigger] r@[i]),
{
    let ghost models = routing_models(tables@);
    let mut r: Vec<(usize, usize)> = Vec::new();
    let mut s: usize = 0;
    while s < tables.len()
        invariant
            s <= tables.len(),
            models == routing_models(tables@),
            r@ == all_active(models, s as int),
            forall|i: int| 0 <= i < r@.len() ==> names_link(models, #[trigger] r@[i]),
        decreases tables.len() - s,
    {
        let table = &tables[s];
        assert(models[s as int] == table@);
        let ghost front = r@;
        let mut k: usize = 0;
        assert(r@ =~= front + active_links(s as int, table@, 0));
        while k < table.neighbors.len()
            invariant
                s < tables@.len(),
                k <= table.neighbors.len(),
                models == routing_models(tables@),
                models[s as int] == table@,
                r@ == front + active_links(s as int, table@, k as int),
                forall|i: int| 0 <= i < r@.len() ==> names_link(models, #[trigger] r@[i]),
            decreases table.neighbors.len() - k,
        {
            if active(table, k) {
                r.push((s, k));
            }
            k += 1;
            assert(r@ =~= front + active_links(s as int, table@, k as int));
        }
        s += 1;
    }
    r
}

fn put_summary_links(out: &mut String, tables: &Vec<RoutingTable>, figures: &Vec<Vec<EdgeFigures>>)
    requires
        figures_fit(routing_models(tables@), figures@),
    ensures
        final(out)@ == old(out)@ + summary_links(routing_models(tables@), figures@),
{
    let ghost models = routing_models(tables@);
    let list: Vec<(usize, usize)> = collect_active(tables);
    if list.len() == 0 {
        out.append("No active edge credit statistics recorded yet.\n");
        return;
    }
    let mut keys: Vec<i128> = Vec::with_capacity(list.len());
    let mut i: usize = 0;
    while i < list.len()
        invariant
            i <= list.len(),
            models == routing_models(tables@),
            forall|j: int| 0 <= j < list@.len() ==> names_link(models, #[trigger] list@[j]),
            keys@ == credit_keys(models, list@).take(i as int),
        decreases list.len() - i,
    {
        let e: (usize, usize) = list[i];
        assert(names_link(models, list@[i as int]));
        assert(models[e.0 as int] == tables@[e.0 as int]@);
        let mean: Scalar = tables[e.0].edge_credit[e.1].mean;
        keys.push(-(mean.place() as i128));
        i += 1;
        assert(keys@ =~= credit_keys(models, list@).take(i as int));
    }
    assert(keys@ =~= credit_keys(models, list@));
    let order: Vec<usize> = stable_order(&keys);
    put_summary_line(out, "Source", "Target", "Mean Credit", "Count", "Variance");
    out.append("-----------------------------------------------------------------\n");
    let ghost head = out@;
    let count: usize = if list.len() < 20 {
        list.len()
    } else {
        20
    };
    let mut n: usize = 0;
    assert(out@ =~= head + summary_edges(models, figures@, list@, 0));
    while n < count
        invariant
            n <= count <= list.len(),
            models == routing_models(tables@),
            figures_fit(models, figures@),
            order@ == sorted_order(credit_keys(models, list@)),
            crate::order::is_stable_order(credit_keys(models, list@), order@),
            forall|j: int| 0 <= j < list@.len() ==> names_link(models, #[trigger] list@[j]),
            out@ == head + summary_edges(models, figures@, list@, n as int),
        decreases count - n,
    {
        assert(0 <= order@[n as int] < list@.len());
        let e: (usize, usize) = list[order[n]];
        assert(names_link(models, list@[order@[n as int] as int]));
        assert(models[e.0 as int] == tables@[e.0 as int]@);
        assert(figures@[e.0 as int]@.len() == models[e.0 as int].neighbors.len());
        let f: &EdgeFigures = &figures[e.0][e.1];
        let source: String = decimal_text(e.0 as u64);
        let target: String = decimal_text(tables[e.0].neighbors[e.1] as u64);
        put_summary_line(
            out,
            source.as_str(),
            target.as_str(),
            f.mean.as_str(),
            f.count.as_str(),
            f.variance.as_str(),
        );
        n += 1;
        assert(out@ =~= head + summary_edges(models, figures@, list@, n as int));
    }
    assert(out@ =~= old(out)@ + summary_links(models, figures@));
}

/// Subnodes of each node.
pub open spec fn kept_subnodes(nodes: Seq<NodeRecord>) -> Seq<int> {
    nodes.map_values(|n: NodeRecord| n.subnodes.len() as int)
}

/// Activations of each node.
pub open spec fn kept_activations(nodes: Seq<NodeRecord>) -> Seq<int> {
    nodes.map_values(|n: NodeRecord| n.activation_count as int)
}

/// Subnodes and activations of a checkpoint.
pub fn node_totals(checkpoint: &ModelCheckpoint) -> (r: (usize, u64))
    requires
        total(kept_subnodes(checkpoint@.nodes)) <= usize::MAX,
        total(kept_activations(checkpoint@.nodes)) <= u64::MAX,
    ensures
        r.0 == total(kept_subnodes(checkpoint@.nodes)),
        r.1 == total(kept_activations(checkpoint@.nodes)),
{
    let ghost nodes = checkpoint@.nodes;
    let mut subnodes: usize = 0;
    let mut activations: u64 = 0;
    let mut i: usize = 0;
    assert(kept_subnodes(nodes).take(0) =~= Seq::empty());
    assert(kept_activations(nodes).take(0) =~= Seq::empty());
    while i < checkpoint.nodes.len()
        invariant
            i <= checkpoint.nodes.len(),
            nodes == checkpoint@.nodes,
            total(kept_subnodes(nodes)) <= usize::MAX,
            total(kept_activations(nodes)) <= u64::MAX,
            subnodes == total(kept_subnodes(nodes).take(i as int)),
            activations == total(kept_activations(nodes).take(i as int)),
        decreases checkpoint.nodes.len() - i,
    {
        proof {
            lemma_total_step(kept_subnodes(nodes), i as int);
            lemma_total_step(kept_activations(nodes), i as int);
            assert(nodes[i as int] == checkpoint.nodes@[i as int]@);
        }
        subnodes = subnodes + checkpoint.nodes[i].subnodes.len();
        activations = activations + checkpoint.nodes[i].activation_count;
        i += 1;
    }
    assert(kept_subnodes(nodes).take(i as int) =~= kept_subnodes(nodes));
    assert(kept_activations(nodes).take(i as int) =~= kept_activations(nodes));
    (subnodes, activations)
}

/// The figures of a checkpoint, as they are to be shown.
#[derive(Debug)]
pub struct SummaryFigures {
    pub initial_energy: String,
    pub weight_decay: String,
    pub avg_subnodes: String,
}

/// The report on a checkpoint, up to its links.
pub open spec fn summary_head(r: ModelRecord, figures: SummaryFigures) -> Seq<char> {
    "================================================================================\n"@
        + "                    ANNP MODEL CHECKPOINT TOPOLOGY REPORT                       \n"@
        + "================================================================================\n\n"@
        + "Stage Completed:     "@ + decimal(r.stage_completed as nat) + "\n"@
        + "Epoch Completed:     "@ + decimal(r.epoch_completed as nat) + "\n"@
        + "Mesh Dimensions:     "@ + decimal(r.config.mesh_rows as nat) + " x "@ + decimal(
        r.config.mesh_cols as nat,
    ) + " ("@ + decimal(r.nodes.len()) + " total nodes)\n"@ + "Particle Dimension:  d_head="@
        + decimal(r.config.d_head as nat) + ", d_model="@ + decimal(
        (r.config.num_shards * r.config.d_head) as nat,
    ) + " ("@ + decimal(r.config.num_shards as nat) + " shards)\n"@
        + "Hop Bounds:          min_hop="@ + decimal(r.config.min_hop as nat) + ", max_hop="@
        + decimal(r.config.max_hop as nat) + "\n"@ + "Initial Energy:      "@
        + figures.initial_energy@ + "\n"@ + "Weight Decay:        "@ + figures.weight_decay@
        + "\n\n"@ + "--- Node Subnode Statistics ---\n"@ + "Total Subnodes:      "@ + decimal(
        total(kept_subnodes(r.nodes)) as nat,
    ) + "\n"@ + "Avg Subnodes/Node:   "@ + figures.avg_subnodes@ + "\n"@
        + "Total Activations:   "@ + decimal(total(kept_activations(r.nodes)) as nat) + "\n\n"@
        + "--- Top Routing Edges by Thompson Credit ---\n"@
}

/// The report on a checkpoint. It ends with the twenty links of highest mean credit among
/// those that have any, equal ones in the order of their nodes.
pub fn export_summary(
    checkpoint: &ModelCheckpoint,
    summary: &SummaryFigures,
    figures: &Vec<Vec<EdgeFigures>>,
) -> (r: String)
    requires
        figures_fit(checkpoint@.routing_tables, figures@),
        checkpoint.config.num_shards * checkpoint.config.d_head <= usize::MAX,
        total(kept_subnodes(checkpoint@.nodes)) <= usize::MAX,
        total(kept_activations(checkpoint@.nodes)) <= u64::MAX,
    ensures
        r@ == summary_head(checkpoint@, *summary) + summary_links(
            checkpoint@.routing_tables,
            figures@,
        ),
{
    let totals: (usize, u64) = node_totals(checkpoint);
    let config = &checkpoint.config;
    let mut out: String =
        "================================================================================\n".to_owned();
    out.append(
        "                    ANNP MODEL CHECKPOINT TOPOLOGY REPORT                       \n",
    );
    out.append(
        "================================================================================\n\n",
    );
    out.append("Stage Completed:     ");
    put_decimal(&mut out, checkpoint.stage_completed as u64);
    out.append("\n");
    out.append("Epoch Completed:     ");
    put_decimal(&mut out, checkpoint.epoch_completed as u64);
    out.append("\n");
    out.append("Mesh Dimensions:     ");
    put_decimal(&mut out, config.mesh_rows as u64);
    out.append(" x ");
    put_decimal(&mut out, config.mesh_cols as u64);
    out.append(" (");
    put_decimal(&mut out, checkpoint.nodes.len() as u64);
    out.append(" total nodes)\n");
    out.append("Particle Dimension:  d_head=");
    put_decimal(&mut out, config.d_head as u64);
    out.append(", d_model=");
    put_decimal(&mut out, config.d_model() as u64);
    out.append(" (");
    put_decimal(&mut out, config.num_shards as u64);
    out.append(" shards)\n");
    out.append("Hop Bounds:          min_hop=");
    put_decimal(&mut out, config.min_hop as u64);
    out.append(", max_hop=");
    put_decimal(&mut out, config.max_hop as u64);
    out.append("\n");
    out.append("Initial Energy:      ");
    out.append(summary.initial_energy.as_str());
    out.append("\n");
    out.append("Weight Decay:        ");
    out.append(summary.weight_decay.as_str());
    out.append("\n\n");
    out.append("--- Node Subnode Statistics ---\n");
    out.append("Total Subnodes:      ");
    put_decimal(&mut out, totals.0 as u64);
    out.append("\n");
    out.append("Avg Subnodes/Node:   ");
    out.append(summary.avg_subnodes.as_str());
    out.append("\n");
    out.append("Total Activations:   ");
    put_decimal(&mut out, totals.1);
    out.append("\n\n");
    out.append("--- Top Routing Edges by Thompson Credit ---\n");
    assert(out@ == summary_head(checkpoint@, *summary));
    put_summary_links(&mut out, &checkpoint.routing_tables, figures);
    out
}

/// The links of a report come by falling mean credit.
pub proof fn law_summary_is_ranked(tables: Seq<RoutingModel>, list: Seq<(usize, usize)>, i: int, j: int)
    requires
        0 <= i < j < list.len() <= usize::MAX,
    ensures
        ({
            let order = sorted_order(credit_keys(tables, list));
            let a = list[order[i] as int];
            let b = list[order[j] as int];
            !tables[a.0 as int].edge_credit[a.1 as int].mean.below(
                tables[b.0 as int].edge_credit[b.1 as int].mean,
            )
        }),
{
    let keys = credit_keys(tables, list);
    let order = sorted_order(keys);
    crate::order::law_stable_order_exists(keys);
    assert(crate::order::precedes(keys, order[i], order[j]));
    assert(keys[order[i] as int] <= keys[order[j] as int]);
}

/// A sequence as a record of a binary dataset.
pub open spec fn record_bytes(seq_len: int, d_model: int, values: Seq<Scalar>) -> Seq<u8> {
    le32(seq_len) + le32(d_model) + le_scalars(values)
}

/// A sequence as a record of a binary dataset: its length and width, then its values.
pub fn dataset_record(seq_len: usize, d_model: usize, values: &Vec<Scalar>) -> (r: Vec<u8>)
    ensures
        r@ == record_bytes(seq_len as int, d_model as int, values@),
        r@ == le32(seq_len as int) + le32(d_model as int) + le_scalars(values@),
{
    let mut r: Vec<u8> = Vec::new();
    put_usize(&mut r, seq_len);
    put_usize(&mut r, d_model);
    put_scalars(&mut r, values.as_slice());
    r
}

/// The names of the first `n` features of a dataset.
pub open spec fn feature_names(n: int) -> Seq<char>
    decreases n,
{
    if n <= 0 {
        Seq::empty()
    } else {
        feature_names(n - 1) + ",f"@ + decimal((n - 1) as nat)
    }
}

/// The first row of a dataset as a table.
pub open spec fn header_text(d_model: int) -> Seq<char> {
    "batch_idx,step"@ + feature_names(d_model) + "\n"@
}

/// The first row of a dataset as a table.
pub fn dataset_header(d_model: usize) -> (r: String)
    ensures
        r@ == header_text(d_model as int),
{
    let mut r: String = "batch_idx,step".to_owned();
    let ghost head = r@;
    let mut d: usize = 0;
    assert(r@ =~= head + feature_names(0));
    while d < d_model
        invariant
            d <= d_model,
            r@ == head + feature_names(d as int),
        decreases d_model - d,
    {
        r.append(",f");
        put_decimal(&mut r, d as u64);
        d += 1;
        assert(r@ =~= head + feature_names(d as int));
    }
    r.append("\n");
    r
}

/// A row of a dataset as a table.
pub open spec fn row_text(batch: nat, step: nat, values: Seq<Seq<char>>) -> Seq<char> {
    comma_separated(seq![decimal(batch), decimal(step)] + values) + "\n"@
}

/// A row of a dataset as a table: its batch, its place in it, then its values as they are to
/// be shown.
pub fn dataset_row(batch: usize, step: usize, values: &Vec<String>) -> (r: String)
    ensures
        r@ == row_text(batch as nat, step as nat, texts(values@)),
{
    let mut fields: Vec<String> = Vec::new();
    fields.push(decimal_text(batch as u64));
    fields.push(decimal_text(step as u64));
    assert(texts(fields@) =~= seq![decimal(batch as nat), decimal(step as nat)]);
    add_items(&mut fields, values);
    let mut r: String = comma_row(&fields);
    r.append("\n");
    r
}

/// The first `n` objects of a list, each on a line of its own.
pub open spec fn listed(rows: Seq<Seq<char>>, n: int) -> Seq<char>
    decreases n,
{
    if n <= 0 {
        Seq::empty()
    } else if n == 1 {
        "  "@ + rows[0]
    } else {
        listed(rows, n - 1) + ",\n"@ + "  "@ + rows[n - 1]
    }
}

/// A list of JSON texts as one document.
pub open spec fn document_text(rows: Seq<Seq<char>>) -> Seq<char> {
    "[\n"@ + listed(rows, rows.len() as int) + "\n]\n"@
}

/// A list of JSON objects as one document.
pub fn json_document(rows: &Vec<String>) -> (r: String)
    ensures
        r@ == document_text(texts(rows@)),
{
    let mut r: String = "[\n".to_owned();
    let ghost head = r@;
    let mut i: usize = 0;
    assert(r@ =~= head + listed(texts(rows@), 0));
    while i < rows.len()
        invariant
            i <= rows.len(),
            r@ == head + listed(texts(rows@), i as int),
        decreases rows.len() - i,
    {
        if i > 0 {
            r.append(",\n");
        }
        r.append("  ");
        r.append(rows[i].as_str());
        i += 1;
        assert(r@ =~= head + listed(texts(rows@), i as int));
    }
    r.append("\n]\n");
    r
}

/// How far the export of a dataset has come.
#[derive(Clone, Copy, Debug, PartialEq, Eq, Structural)]
pub struct ExportProgress {
    /// Batches to be exported. The first one always is.
    pub batches: usize,
    pub exported_batches: usize,
    pub total_tokens: usize,
}

impl ExportProgress {
    /// Whether the next batch is the last that was asked for.
    pub open spec fn ends(self) -> bool {
        self.exported_batches + 1 >= self.batches
    }

    /// An export that begins.
    pub fn start(batches: usize) -> (r: Self)
        ensures
            r == (ExportProgress { batches, exported_batches: 0, total_tokens: 0 }),
    {
        ExportProgress { batches, exported_batches: 0, total_tokens: 0 }
    }

    /// Notes that a sequence was exported, and says whether that was the last.
    pub fn exported(&mut self, seq_len: usize) -> (r: bool)
        requires
            old(self).exported_batches < usize::MAX,
            old(self).total_tokens + seq_len <= usize::MAX,
        ensures
            *final(self) == (ExportProgress {
                batches: old(self).batches,
                exported_batches: (old(self).exported_batches + 1) as usize,
                total_tokens: (old(self).total_tokens + seq_len) as usize,
            }),
            r == old(self).ends(),
            r == (old(self).exported_batches + 1 >= old(self).batches),
    {
        self.exported_batches += 1;
        self.total_tokens += seq_len;
        self.exported_batches >= self.batches
    }
}

/// A graph declares every node of the checkpoint once, in order: under the name that its number
/// makes, with its number, the number of its subnodes and its energy on the label.
pub proof fn law_graphs_declare_every_node(nodes: Seq<NodeRecord>, energies: Seq<String>, n: nat)
    ensures
        dot_nodes(nodes, energies, n as int) == joined(
            Seq::new(
                n,
                |i: int|
                    "  node_"@ + decimal(nodes[i].node_id as nat) + " [label=\"Node "@ + decimal(
                        nodes[i].node_id as nat,
                    ) + "\\nsubnodes: "@ + decimal(nodes[i].subnodes.len()) + "\\nenergy: "@
                        + energies[i]@ + "\"];\n"@,
            ),
        ),
    decreases n,
{
    let line = |i: int|
        "  node_"@ + decimal(nodes[i].node_id as nat) + " [label=\"Node "@ + decimal(
            nodes[i].node_id as nat,
        ) + "\\nsubnodes: "@ + decimal(nodes[i].subnodes.len()) + "\\nenergy: "@ + energies[i]@
            + "\"];\n"@;
    let whole = Seq::new(n, line);
    if n > 0 {
        law_graphs_declare_every_node(nodes, energies, (n - 1) as nat);
        assert(whole.drop_last() =~= Seq::new((n - 1) as nat, line));
        assert(dot_node(nodes[n - 1], energies[n - 1]@) =~= line(n - 1));
    }
}

/// The name that a node is declared under is that of its number, and of no other: nodes with
/// different numbers are declared under different names.
pub proof fn law_nodes_are_declared_by_number(
    node: NodeRecord,
    energy: Seq<char>,
    other: NodeRecord,
    other_energy: Seq<char>,
)
    ensures
        ("  node_"@ + decimal(node.node_id as nat)).push(' ').is_prefix_of(dot_node(node, energy)),
        node.node_id != other.node_id ==> !("  node_"@ + decimal(node.node_id as nat)).push(
            ' ',
        ).is_prefix_of(dot_node(other, other_energy)),
{
    reveal_strlit(" [label=\"Node ");
    let label = " [label=\"Node "@;
    assert(label[0] == ' ');
    lemma_declaration(node, energy);
    let rest = lemma_declaration(other, other_energy);
    if ("  node_"@ + decimal(node.node_id as nat)).push(' ').is_prefix_of(
        dot_node(other, other_energy),
    ) {
        crate::text::law_marked_decimals_differ(
            "  node_"@,
            node.node_id as nat,
            other.node_id as nat,
            ' ',
            rest,
        );
    }
}

proof fn lemma_declaration(node: NodeRecord, energy: Seq<char>) -> (rest: Seq<char>)
    ensures
        dot_node(node, energy) == ("  node_"@ + decimal(node.node_id as nat)).push(' ') + rest,
        ("  node_"@ + decimal(node.node_id as nat)).push(' ').is_prefix_of(dot_node(node, energy)),
{
    reveal_strlit(" [label=\"Node ");
    let label = " [label=\"Node "@;
    let id = decimal(node.node_id as nat);
    let rest = label.skip(1) + id + "\\nsubnodes: "@ + decimal(node.subnodes.len())
        + "\\nenergy: "@ + energy + "\"];\n"@;
    assert(dot_node(node, energy) =~= ("  node_"@ + id).push(' ') + rest);
    rest
}

/// A graph draws every link of a node once, in order: from the node to its neighbor, both by
/// the names that they are declared under. A link with observations shows its mean credit and
/// their number; one that has earned positive credit is drawn wide.
pub proof fn law_graphs_draw_every_link(
    src: int,
    table: RoutingModel,
    figures: Seq<EdgeFigures>,
    n: nat,
)
    requires
        n <= table.neighbors.len(),
    ensures
        dot_edges(src, table, figures, n as int) == joined(
            Seq::new(
                n,
                |k: int|
                    "  node_"@ + decimal(src as nat) + " -> node_"@ + decimal(
                        table.neighbors[k] as nat,
                    ) + " [label=\""@ + (if k < table.edge_credit.len() && Scalar::zero().below(
                        table.edge_credit[k].count,
                    ) {
                        "μ="@ + figures[k].mean@ + ", n="@ + figures[k].count@
                    } else {
                        "init"@
                    }) + "\", penwidth="@ + (if k < table.edge_credit.len() && Scalar::zero().below(
                        table.edge_credit[k].mean,
                    ) {
                        "1.8"@
                    } else {
                        "0.8"@
                    }) + "];\n"@,
            ),
        ),
    decreases n,
{
    let line = |k: int|
        "  node_"@ + decimal(src as nat) + " -> node_"@ + decimal(table.neighbors[k] as nat)
            + " [label=\""@ + (if k < table.edge_credit.len() && Scalar::zero().below(
            table.edge_credit[k].count,
        ) {
            "μ="@ + figures[k].mean@ + ", n="@ + figures[k].count@
        } else {
            "init"@
        }) + "\", penwidth="@ + (if k < table.edge_credit.len() && Scalar::zero().below(
            table.edge_credit[k].mean,
        ) {
            "1.8"@
        } else {
            "0.8"@
        }) + "];\n"@;
    if n > 0 {
        law_graphs_draw_every_link(src, table, figures, (n - 1) as nat);
        assert(Seq::new(n, line).drop_last() =~= Seq::new((n - 1) as nat, line));
        assert(dot_edges(src, table, figures, n as int) =~= dot_edges(src, table, figures, n - 1)
            + line(n - 1));
    }
}

/// The links of a graph come node by node, each node with all its links and under its place in
/// the checkpoint. So do the rows of a table of links.
pub proof fn law_links_come_node_by_node(
    tables: Seq<RoutingModel>,
    figures: Seq<Vec<EdgeFigures>>,
    n: nat,
)
    ensures
        dot_tables(tables, figures, n as int) == joined(
            Seq::new(
                n,
                |s: int|
                    dot_edges(s, tables[s], figures[s]@, tables[s].neighbors.len() as int),
            ),
        ),
        csv_tables(tables, figures, n as int) == joined(
            Seq::new(
                n,
                |s: int|
                    csv_edges(s, tables[s], figures[s]@, tables[s].neighbors.len() as int),
            ),
        ),
    decreases n,
{
    let dot = |s: int| dot_edges(s, tables[s], figures[s]@, tables[s].neighbors.len() as int);
    let csv = |s: int| csv_edges(s, tables[s], figures[s]@, tables[s].neighbors.len() as int);
    if n > 0 {
        law_links_come_node_by_node(tables, figures, (n - 1) as nat);
        assert(Seq::new(n, dot).drop_last() =~= Seq::new((n - 1) as nat, dot));
        assert(Seq::new(n, csv).drop_last() =~= Seq::new((n - 1) as nat, csv));
    }
}

/// A table of links has a row for each link of a node: the node, its neighbor, the place of the
/// link, its mean credit, the variance and the number of its observations, and the norm of its
/// weights. Where no credit is kept the three figures on it are zero.
pub proof fn law_tables_list_every_link(
    src: int,
    table: RoutingModel,
    figures: Seq<EdgeFigures>,
    n: nat,
)
    requires
        n <= table.neighbors.len(),
    ensures
        csv_edges(src, table, figures, n as int) == joined(
            Seq::new(
                n,
                |k: int|
                    decimal(src as nat) + seq![','] + decimal(table.neighbors[k] as nat) + seq![',']
                        + decimal(k as nat) + seq![','] + (if k < table.edge_credit.len() {
                        figures[k].mean@ + seq![','] + figures[k].variance@ + seq![',']
                            + figures[k].count@
                    } else {
                        "0.00000000"@ + seq![','] + "0.00000000"@ + seq![','] + "0"@
                    }) + seq![','] + figures[k].norm@ + "\n"@,
            ),
        ),
    decreases n,
{
    let line = |k: int|
        decimal(src as nat) + seq![','] + decimal(table.neighbors[k] as nat) + seq![','] + decimal(
            k as nat,
        ) + seq![','] + (if k < table.edge_credit.len() {
            figures[k].mean@ + seq![','] + figures[k].variance@ + seq![','] + figures[k].count@
        } else {
            "0.00000000"@ + seq![','] + "0.00000000"@ + seq![','] + "0"@
        }) + seq![','] + figures[k].norm@ + "\n"@;
    if n > 0 {
        law_tables_list_every_link(src, table, figures, (n - 1) as nat);
        assert(Seq::new(n, line).drop_last() =~= Seq::new((n - 1) as nat, line));
        let row = csv_edge(src, table, n - 1, figures[n - 1]);
        lemma_seven_fields(row);
        assert(csv_edges(src, table, figures, n as int) =~= csv_edges(src, table, figures, n - 1)
            + line(n - 1));
    }
}

proof fn lemma_seven_fields(f: Seq<Seq<char>>)
    requires
        f.len() == 7,
    ensures
        comma_separated(f) == f[0] + seq![','] + f[1] + seq![','] + f[2] + seq![','] + f[3]
            + seq![','] + f[4] + seq![','] + f[5] + seq![','] + f[6],
{
    reveal_strlit(",");
    assert(","@ =~= seq![',']);
    reveal_with_fuel(comma_separated, 8);
    assert(f.drop_last().drop_last().drop_last().drop_last().drop_last().drop_last() =~= seq![
        f[0],
    ]);
    assert(f.drop_last().drop_last().drop_last().drop_last().drop_last() =~= seq![f[0], f[1]]);
    assert(f.drop_last().drop_last().drop_last().drop_last() =~= seq![f[0], f[1], f[2]]);
    assert(f.drop_last().drop_last().drop_last() =~= seq![f[0], f[1], f[2], f[3]]);
    assert(f.drop_last().drop_last() =~= seq![f[0], f[1], f[2], f[3], f[4]]);
    assert(f.drop_last() =~= seq![f[0], f[1], f[2], f[3], f[4], f[5]]);
}

/// The weights of a link are its column of the table, from the first row to the last.
pub proof fn law_link_weights_are_a_column(table: RoutingModel, k: int, n: int, d: int)
    requires
        table.wf(),
        0 <= k < table.neighbors.len(),
        0 <= d < n <= table.d_head,
    ensures
        link_weights(table, k, n).len() == n,
        link_weights(table, k, n)[d] == table.weights[d * table.neighbors.len() + k],
    decreases n,
{
    let cols = table.neighbors.len() as int;
    assert((n - 1) * cols + k < table.d_head * cols) by (nonlinear_arith)
        requires
            n - 1 < table.d_head,
            0 <= k < cols,
            0 <= n - 1,
    ;
    if n > 1 {
        law_link_weights_are_a_column(
            table,
            k,
            n - 1,
            if d < n - 1 {
                d
            } else {
                0
            },
        );
    } else {
        assert(link_weights(table, k, 0) =~= Seq::empty());
    }
}

/// A report ranks the links that have observations, and only those, each of them once.
pub proof fn law_active_links_are_ranked(tables: Seq<RoutingModel>, n: int, s: usize, k: usize)
    requires
        0 <= n <= tables.len() <= usize::MAX,
        forall|i: int|
            0 <= i < tables.len() ==> (#[trigger] tables[i]).neighbors.len() <= usize::MAX,
    ensures
        all_active(tables, n).contains((s, k)) <==> {
            &&& s < n
            &&& k < tables[s as int].neighbors.len()
            &&& k < tables[s as int].edge_credit.len()
            &&& Scalar::zero().below(tables[s as int].edge_credit[k as int].count)
        },
        all_active(tables, n).no_duplicates(),
    decreases n,
{
    if n > 0 {
        let front = all_active(tables, n - 1);
        let table = tables[n - 1];
        let m = table.neighbors.len() as int;
        let more = active_links(n - 1, table, m);
        law_active_links_are_ranked(tables, n - 1, s, k);
        lemma_active_links(n - 1, table, m, s, k);
        assert(tables[n - 1].neighbors.len() <= usize::MAX);
        let whole = front + more;
        if front.contains((s, k)) {
            let i = choose|i: int| 0 <= i < front.len() && front[i] == (s, k);
            assert(whole[i] == (s, k));
        }
        if more.contains((s, k)) {
            let i = choose|i: int| 0 <= i < more.len() && more[i] == (s, k);
            assert(whole[front.len() + i] == (s, k));
        }
        if whole.contains((s, k)) {
            let i = choose|i: int| 0 <= i < whole.len() && whole[i] == (s, k);
            if i < front.len() {
                assert(front[i] == (s, k));
            } else {
                assert(more[i - front.len()] == (s, k));
            }
        }
        assert forall|i: int, j: int|
            0 <= i < whole.len() && 0 <= j < whole.len() && i != j implies whole[i] != whole[j] by {
            let a = whole[i];
            let b = whole[j];
            if i < front.len() && j < front.len() {
                assert(front[i] != front[j]);
            } else if i >= front.len() && j >= front.len() {
                assert(more[i - front.len()] != more[j - front.len()]);
            } else {
                let low = if i < front.len() {
                    i
                } else {
                    j
                };
                let high = if i < front.len() {
                    j
                } else {
                    i
                };
                assert(front.contains(front[low]));
                law_active_links_are_ranked(tables, n - 1, front[low].0, front[low].1);
                assert(more.contains(more[high - front.len()]));
                lemma_active_links(
                    n - 1,
                    table,
                    m,
                    more[high - front.len()].0,
                    more[high - front.len()].1,
                );
            }
        }
    }
}

proof fn lemma_active_links(src: int, table: RoutingModel, n: int, s: usize, k: usize)
    requires
        0 <= src <= usize::MAX,
        0 <= n <= usize::MAX,
    ensures
        active_links(src, table, n).contains((s, k)) <==> {
            &&& s == src
            &&& k < n
            &&& k < table.edge_credit.len()
            &&& Scalar::zero().below(table.edge_credit[k as int].count)
        },
        active_links(src, table, n).no_duplicates(),
    decreases n,
{
    if n > 0 {
        let front = active_links(src, table, n - 1);
        let whole = active_links(src, table, n);
        lemma_active_links(src, table, n - 1, s, k);
        lemma_active_links(src, table, n - 1, src as usize, (n - 1) as usize);
        if front.contains((s, k)) {
            let i = choose|i: int| 0 <= i < front.len() && front[i] == (s, k);
            assert(whole[i] == (s, k));
        }
        if is_active(table, n - 1) {
            assert(whole[front.len() as int] == (src as usize, (n - 1) as usize));
            assert(!front.contains((src as usize, (n - 1) as usize)));
        }
        if whole.contains((s, k)) {
            let i = choose|i: int| 0 <= i < whole.len() && whole[i] == (s, k);
            if i < front.len() {
                assert(front[i] == (s, k));
            }
        }
        assert forall|i: int, j: int|
            0 <= i < whole.len() && 0 <= j < whole.len() && i != j implies whole[i] != whole[j] by {
            if i < front.len() && j < front.len() {
                assert(front[i] != front[j]);
            } else if i < front.len() {
                assert(front.contains(front[i]));
            } else {
                assert(front.contains(front[j]));
            }
        }
    }
}

/// A report shows at most twenty links, each on a line of its own with the node it leaves, the
/// node it leads to, its mean credit, the number of its observations and their variance, each
/// column as wide as its heading asks.
pub proof fn law_reports_show_ranked_links(
    tables: Seq<RoutingModel>,
    figures: Seq<Vec<EdgeFigures>>,
    list: Seq<(usize, usize)>,
    n: nat,
)
    ensures
        shown(list.len() as int) == if list.len() < 20 {
            list.len() as int
        } else {
            20
        },
        summary_edges(tables, figures, list, n as int) == joined(
            Seq::new(
                n,
                |i: int|
                    {
                        let e = list[sorted_order(credit_keys(tables, list))[i] as int];
                        let f = figures[e.0 as int]@[e.1 as int];
                        left_aligned(decimal(e.0 as nat), 10) + seq![' '] + left_aligned(
                            decimal(tables[e.0 as int].neighbors[e.1 as int] as nat),
                            10,
                        ) + seq![' '] + left_aligned(f.mean@, 15) + seq![' '] + left_aligned(
                            f.count@,
                            12,
                        ) + seq![' '] + left_aligned(f.variance@, 15) + "\n"@
                    },
            ),
        ),
    decreases n,
{
    reveal_strlit(" ");
    assert(" "@ =~= seq![' ']);
    let line = |i: int|
        {
            let e = list[sorted_order(credit_keys(tables, list))[i] as int];
            let f = figures[e.0 as int]@[e.1 as int];
            left_aligned(decimal(e.0 as nat), 10) + seq![' '] + left_aligned(
                decimal(tables[e.0 as int].neighbors[e.1 as int] as nat),
                10,
            ) + seq![' '] + left_aligned(f.mean@, 15) + seq![' '] + left_aligned(f.count@, 12)
                + seq![' '] + left_aligned(f.variance@, 15) + "\n"@
        };
    if n > 0 {
        law_reports_show_ranked_links(tables, figures, list, (n - 1) as nat);
        assert(Seq::new(n, line).drop_last() =~= Seq::new((n - 1) as nat, line));
        let e = list[sorted_order(credit_keys(tables, list))[n - 1] as int];
        assert(summary_edge(tables, figures, e) =~= line(n - 1));
    }
}

/// A report names the stage, the epoch, the shape of the network, the bounds on hops and the
/// totals over its nodes, each behind its own heading.
pub proof fn law_reports_name_their_figures(r: ModelRecord, figures: SummaryFigures)
    ensures
        ({
            let head = summary_head(r, figures);
            let says = |part: Seq<char>| crate::text::contains_text(head, part);
            &&& says("Stage Completed:     "@ + decimal(r.stage_completed as nat) + "\n"@)
            &&& says("Epoch Completed:     "@ + decimal(r.epoch_completed as nat) + "\n"@)
            &&& says(
                "Mesh Dimensions:     "@ + decimal(r.config.mesh_rows as nat) + " x "@ + decimal(
                    r.config.mesh_cols as nat,
                ) + " ("@ + decimal(r.nodes.len()) + " total nodes)\n"@,
            )
            &&& says(
                "Particle Dimension:  d_head="@ + decimal(r.config.d_head as nat) + ", d_model="@
                    + decimal((r.config.num_shards * r.config.d_head) as nat) + " ("@ + decimal(
                    r.config.num_shards as nat,
                ) + " shards)\n"@,
            )
            &&& says(
                "Hop Bounds:          min_hop="@ + decimal(r.config.min_hop as nat) + ", max_hop="@
                    + decimal(r.config.max_hop as nat) + "\n"@,
            )
            &&& says("Initial Energy:      "@ + figures.initial_energy@ + "\n"@)
            &&& says("Weight Decay:        "@ + figures.weight_decay@ + "\n\n"@)
            &&& says(
                "Total Subnodes:      "@ + decimal(
                    total(r.nodes.map_values(|n: NodeRecord| n.subnodes.len() as int)) as nat,
                ) + "\n"@,
            )
            &&& says("Avg Subnodes/Node:   "@ + figures.avg_subnodes@ + "\n"@)
            &&& says(
                "Total Activations:   "@ + decimal(
                    total(r.nodes.map_values(|n: NodeRecord| n.activation_count as int)) as nat,
                ) + "\n\n"@,
            )
        }),
{
    let head = summary_head(r, figures);
    let g0 = "================================================================================\n"@
        + "                    ANNP MODEL CHECKPOINT TOPOLOGY REPORT                       \n"@
        + "================================================================================\n\n"@;
    let g1 = g0 + "Stage Completed:     "@ + decimal(r.stage_completed as nat) + "\n"@;
    let g2 = g1 + "Epoch Completed:     "@ + decimal(r.epoch_completed as nat) + "\n"@;
    let g3 = g2 + "Mesh Dimensions:     "@ + decimal(r.config.mesh_rows as nat) + " x "@ + decimal(
        r.config.mesh_cols as nat,
    ) + " ("@ + decimal(r.nodes.len()) + " total nodes)\n"@;
    let g4 = g3 + "Particle Dimension:  d_head="@ + decimal(r.config.d_head as nat) + ", d_model="@
        + decimal((r.config.num_shards * r.config.d_head) as nat) + " ("@ + decimal(
        r.config.num_shards as nat,
    ) + " shards)\n"@;
    let g5 = g4 + "Hop Bounds:          min_hop="@ + decimal(r.config.min_hop as nat)
        + ", max_hop="@ + decimal(r.config.max_hop as nat) + "\n"@;
    let g6 = g5 + "Initial Energy:      "@ + figures.initial_energy@ + "\n"@;
    let g7 = g6 + "Weight Decay:        "@ + figures.weight_decay@ + "\n\n"@;
    let g8 = g7 + "--- Node Subnode Statistics ---\n"@;
    let g9 = g8 + "Total Subnodes:      "@ + decimal(total(kept_subnodes(r.nodes)) as nat) + "\n"@;
    let g10 = g9 + "Avg Subnodes/Node:   "@ + figures.avg_subnodes@ + "\n"@;
    let g11 = g10 + "Total Activations:   "@ + decimal(total(kept_activations(r.nodes)) as nat)
        + "\n\n"@;
    assert(head == g11 + "--- Top Routing Edges by Thompson Credit ---\n"@);
    lemma_front(g11, "--- Top Routing Edges by Thompson Credit ---\n"@, head);
    lemma_three(g10, "Total Activations:   "@, decimal(total(kept_activations(r.nodes)) as nat), "\n\n"@, g11);
    lemma_front(g10, "Total Activations:   "@ + decimal(total(kept_activations(r.nodes)) as nat) + "\n\n"@, head);
    lemma_three(g9, "Avg Subnodes/Node:   "@, figures.avg_subnodes@, "\n"@, g10);
    lemma_front(g9, "Avg Subnodes/Node:   "@ + figures.avg_subnodes@ + "\n"@, head);
    lemma_three(g8, "Total Subnodes:      "@, decimal(total(kept_subnodes(r.nodes)) as nat), "\n"@, g9);
    lemma_front(g8, "Total Subnodes:      "@ + decimal(total(kept_subnodes(r.nodes)) as nat) + "\n"@, head);
    lemma_front(g7, "--- Node Subnode Statistics ---\n"@, head);
    lemma_three(g6, "Weight Decay:        "@, figures.weight_decay@, "\n\n"@, g7);
    lemma_front(g6, "Weight Decay:        "@ + figures.weight_decay@ + "\n\n"@, head);
    lemma_three(g5, "Initial Energy:      "@, figures.initial_energy@, "\n"@, g6);
    lemma_front(g5, "Initial Energy:      "@ + figures.initial_energy@ + "\n"@, head);
    lemma_five(
        g4,
        "Hop Bounds:          min_hop="@,
        decimal(r.config.min_hop as nat),
        ", max_hop="@,
        decimal(r.config.max_hop as nat),
        "\n"@,
    );
    lemma_front(
        g4,
        "Hop Bounds:          min_hop="@ + decimal(r.config.min_hop as nat) + ", max_hop="@
            + decimal(r.config.max_hop as nat) + "\n"@,
        head,
    );
    lemma_five(
        g3,
        "Particle Dimension:  d_head="@,
        decimal(r.config.d_head as nat),
        ", d_model="@,
        decimal((r.config.num_shards * r.config.d_head) as nat),
        " ("@,
    );
    let d5 = "Particle Dimension:  d_head="@ + decimal(r.config.d_head as nat) + ", d_model="@
        + decimal((r.config.num_shards * r.config.d_head) as nat) + " ("@;
    lemma_three(g3, d5, decimal(r.config.num_shards as nat), " shards)\n"@, g4);
    lemma_front(g3, d5 + decimal(r.config.num_shards as nat) + " shards)\n"@, head);
    lemma_five(
        g2,
        "Mesh Dimensions:     "@,
        decimal(r.config.mesh_rows as nat),
        " x "@,
        decimal(r.config.mesh_cols as nat),
        " ("@,
    );
    let m5 = "Mesh Dimensions:     "@ + decimal(r.config.mesh_rows as nat) + " x "@ + decimal(
        r.config.mesh_cols as nat,
    ) + " ("@;
    lemma_three(g2, m5, decimal(r.nodes.len()), " total nodes)\n"@, g3);
    lemma_front(g2, m5 + decimal(r.nodes.len()) + " total nodes)\n"@, head);
    lemma_three(g1, "Epoch Completed:     "@, decimal(r.epoch_completed as nat), "\n"@, g2);
    lemma_front(g1, "Epoch Completed:     "@ + decimal(r.epoch_completed as nat) + "\n"@, head);
    lemma_three(g0, "Stage Completed:     "@, decimal(r.stage_completed as nat), "\n"@, g1);
    lemma_front(g0, "Stage Completed:     "@ + decimal(r.stage_completed as nat) + "\n"@, head);
}

/// A text that begins with `front` and `part` begins with `front` and contains `part`.
proof fn lemma_front(front: Seq<char>, part: Seq<char>, whole: Seq<char>)
    requires
        (front + part).is_prefix_of(whole),
    ensures
        front.is_prefix_of(whole),
        crate::text::contains_text(whole, part),
{
    let at = front.len() as int;
    assert(whole.take((front + part).len() as int) =~= front + part);
    assert forall|i: int| 0 <= i < (front + part).len() implies whole[i] == (front + part)[i] by {
        assert(whole.take((front + part).len() as int)[i] == whole[i]);
    }
    assert(whole.subrange(at, at + part.len()) =~= part);
    assert(whole.take(at) =~= front);
}

proof fn lemma_three(front: Seq<char>, a: Seq<char>, b: Seq<char>, c: Seq<char>, whole: Seq<char>)
    requires
        whole == front + a + b + c,
    ensures
        whole == front + (a + b + c),
{
    assert(front + a + b + c =~= front + (a + b + c));
}

proof fn lemma_five(
    front: Seq<char>,
    a: Seq<char>,
    b: Seq<char>,
    c: Seq<char>,
    d: Seq<char>,
    e: Seq<char>,
)
    ensures
        front + a + b + c + d + e == front + (a + b + c + d + e),
{
    assert(front + a + b + c + d + e =~= front + (a + b + c + d + e));
}

/// A dataset's features are named by their places, from zero on.
pub proof fn law_features_are_numbered(n: nat)
    ensures
        feature_names(n as int) == joined(Seq::new(n, |i: int| seq![',', 'f'] + decimal(i as nat))),
    decreases n,
{
    reveal_strlit(",f");
    assert(",f"@ =~= seq![',', 'f']);
    let name = |i: int| seq![',', 'f'] + decimal(i as nat);
    if n > 0 {
        law_features_are_numbered((n - 1) as nat);
        assert(Seq::new(n, name).drop_last() =~= Seq::new((n - 1) as nat, name));
        assert(feature_names(n as int) =~= feature_names(n - 1) + name(n - 1));
    }
}

/// The objects of a list stand on lines of their own, indented, with a comma between two of
/// them and none behind the last.
pub proof fn law_objects_are_listed(rows: Seq<Seq<char>>, n: nat)
    requires
        0 < n <= rows.len(),
    ensures
        listed(rows, n as int) == joined(
            Seq::new(
                n,
                |i: int|
                    if i + 1 < n {
                        "  "@ + rows[i] + ",\n"@
                    } else {
                        "  "@ + rows[i]
                    },
            ),
        ),
    decreases n,
{
    let line = |i: int|
        if i + 1 < n {
            "  "@ + rows[i] + ",\n"@
        } else {
            "  "@ + rows[i]
        };
    let whole = Seq::new(n, line);
    if n == 1 {
        crate::text::law_joined_keeps_parts(whole, Seq::empty());
        assert(listed(rows, 1) =~= whole[0]);
    } else {
        let m = (n - 1) as nat;
        let fewer = |i: int|
            if i + 1 < m {
                "  "@ + rows[i] + ",\n"@
            } else {
                "  "@ + rows[i]
            };
        law_objects_are_listed(rows, m);
        let front = whole.drop_last();
        let same = Seq::new(m, fewer);
        assert(front.drop_last() =~= same.drop_last());
        assert(joined(front) =~= joined(same) + ",\n"@);
        assert(listed(rows, n as int) =~= joined(front) + whole.last());
    }
}

/// Each form of export has its names, and every other name stands for JSON.
pub proof fn law_names_of_exports(name: Seq<char>)
    ensures
        export_of(name) is Dot <==> name == "dot"@ || name == "gv"@,
        export_of(name) is Csv <==> name == "csv"@,
        export_of(name) is Summary <==> name == "summary"@ || name == "txt"@,
        export_of(name) is Json <==> name != "dot"@ && name != "gv"@ && name != "csv"@ && name
            != "summary"@ && name != "txt"@,
{
    reveal_strlit("dot");
    reveal_strlit("gv");
    reveal_strlit("csv");
    reveal_strlit("summary");
    reveal_strlit("txt");
    assert("dot"@.len() == 3 && "dot"@[0] == 'd');
    assert("gv"@.len() == 2);
    assert("csv"@.len() == 3 && "csv"@[0] == 'c');
    assert("summary"@.len() == 7);
    assert("txt"@.len() == 3 && "txt"@[0] == 't');
}

/// A record of a binary dataset begins with the length of its sequence and the width of a row;
/// its values follow from 8 on, four bytes each.
pub proof fn law_layout_of_a_record(seq_len: int, d_model: int, values: Seq<Scalar>, i: int)
    requires
        0 <= seq_len < 0x1_0000_0000,
        0 <= d_model < 0x1_0000_0000,
        0 <= i < values.len(),
    ensures
        ({
            let b = record_bytes(seq_len, d_model, values);
            &&& crate::words::word_at(b, 0) == seq_len
            &&& crate::words::word_at(b, 4) == d_model
            &&& crate::words::word_at(b, 8 + 4 * i) == values[i].bits
            &&& b.len() == 8 + 4 * values.len()
        }),
{
    let b = record_bytes(seq_len, d_model, values);
    let p = le32(seq_len) + le32(d_model);
    crate::words::lemma_le32_len(seq_len);
    crate::words::lemma_le32_len(d_model);
    crate::bytes::lemma_holds_front(b, Seq::empty());
    assert(b + Seq::<u8>::empty() =~= b);
    crate::bytes::lemma_holds_split(b, 0, p, le_scalars(values));
    crate::bytes::lemma_holds_split(b, 0, le32(seq_len), le32(d_model));
    crate::bytes::lemma_word(b, 0, seq_len);
    crate::bytes::lemma_word(b, 4, d_model);
    crate::bytes::lemma_scalars(b, 8, values);
    crate::words::lemma_word_range(b, 8 + 4 * i);
    assert(crate::bytes::scalars_at(b, 8, values.len())[i] == values[i]);
}

/// The totals of a checkpoint grow by what each further node has: its subnodes and its
/// activations.
pub proof fn law_kept_nodes_add_up(nodes: Seq<NodeRecord>, node: NodeRecord)
    ensures
        total(kept_subnodes(Seq::empty())) == 0,
        total(kept_activations(Seq::empty())) == 0,
        total(kept_subnodes(nodes.push(node))) == total(kept_subnodes(nodes)) + node.subnodes.len(),
        total(kept_activations(nodes.push(node))) == total(kept_activations(nodes))
            + node.activation_count,
{
    assert(kept_subnodes(nodes.push(node)).drop_last() =~= kept_subnodes(nodes));
    assert(kept_activations(nodes.push(node)).drop_last() =~= kept_activations(nodes));
    assert(kept_subnodes(Seq::empty()) =~= Seq::empty());
    assert(kept_activations(Seq::empty()) =~= Seq::empty());
}

/// An export ends with the batch that makes up the number asked for, not before.
pub proof fn law_exports_end_when_complete(progress: ExportProgress)
    ensures
        progress.exported_batches + 1 == progress.batches ==> progress.ends(),
        progress.exported_batches + 1 < progress.batches ==> !progress.ends(),
        progress.batches <= 1 ==> progress.ends(),
{
}

/// A table that is too short gives as many weights of a link as it has, and nothing beyond.
pub proof fn law_short_tables_give_what_they_have(table: RoutingModel, k: int, n: int)
    requires
        0 <= n,
        0 <= k,
        n * table.neighbors.len() + k >= table.weights.len(),
    ensures
        link_weights(table, k, n + 1) == link_weights(table, k, n),
{
}

/// A name that is given decides on the form of an export. Without one the extension does, and
/// without either it is JSON.
pub proof fn law_a_given_form_counts(f: Seq<char>, e: Option<Seq<char>>, x: Seq<char>)
    ensures
        export_chosen(Some(f), e) == export_of(f),
        export_chosen(None, Some(x)) == export_of(x),
        export_chosen(None, None) is Json,
{
}

/// A row of a dataset shows its batch, its step and its values, in this order, with one comma
/// between them. The header names them so, and a document is a list in brackets.
pub proof fn law_rows_show_batch_and_step(
    batch: nat,
    step: nat,
    values: Seq<Seq<char>>,
    d_model: int,
    rows: Seq<Seq<char>>,
)
    requires
        values.len() > 0,
    ensures
        row_text(batch, step, values) == decimal(batch) + ","@ + decimal(step) + ","@
            + comma_separated(values) + "\n"@,
        header_text(d_model) == "batch_idx"@ + ","@ + "step"@ + feature_names(d_model) + "\n"@,
        document_text(rows) == "["@ + "\n"@ + listed(rows, rows.len() as int) + "\n"@ + "]"@ + "\n"@,
{
    reveal_strlit(",");
    reveal_strlit("batch_idx,step");
    reveal_strlit("batch_idx");
    reveal_strlit("step");
    reveal_strlit("[\n");
    reveal_strlit("\n]\n");
    reveal_strlit("[");
    reveal_strlit("]");
    reveal_strlit("\n");
    assert(","@ =~= seq![',']);
    let (b, s) = (seq![decimal(batch)], seq![decimal(step)]);
    crate::text::law_one_comma_between_fields(b, s);
    crate::text::law_one_comma_between_fields(b + s, values);
    assert(b + s =~= seq![decimal(batch), decimal(step)]);
    assert(comma_separated(b) == decimal(batch) && comma_separated(s) == decimal(step));
    assert("batch_idx,step"@ =~= "batch_idx"@ + ","@ + "step"@);
    let middle = listed(rows, rows.len() as int);
    assert(document_text(rows) =~= "["@ + "\n"@ + middle + "\n"@ + "]"@ + "\n"@);
}

/// A graph opens with its kind and name and is closed by a bracket, and in between all nodes
/// stand before all links. A table of links opens with the names of its seven columns.
pub proof fn law_exports_are_complete(
    r: ModelRecord,
    energies: Seq<String>,
    figures: Seq<Vec<EdgeFigures>>,
)
    ensures
        exists|style: Seq<char>|
            dot_text(r, energies, figures) == #[trigger] ("digraph ANNP_Mesh_Topology {\n"@ + style)
                + dot_nodes(r.nodes, energies, r.nodes.len() as int) + "\n"@ + dot_tables(
                r.routing_tables,
                figures,
                r.routing_tables.len() as int,
            ) + "}\n"@,
        csv_text(r, figures)
            == "source_node,target_node,edge_index,mean_credit,variance_credit,observation_count,weight_norm\n"@
            + csv_tables(r.routing_tables, figures, r.routing_tables.len() as int),
{
    let open = "digraph ANNP_Mesh_Topology {\n"@;
    let style = dot_head().skip(open.len() as int);
    assert(dot_head() =~= open + style);
}

} // verus!
