use crate::bounds::Bounds;
use crate::graph::{Graph, Node};
use crate::usage::{lists_before, Usage};
use vstd::prelude::*;

verus! {

/// How heavy a stroke is drawn.
#[derive(Clone, Copy, Debug, PartialEq, Eq, Structural)]
pub enum Weight {
    /// As thin as a stroke can be and still show. Every stroke is drawn so
    /// when no edge is used more than once: then there is no scale to share.
    Thinnest,
    /// By the share that `count` has of the busiest count `of`, which is at
    /// least two: on a logarithmic scale the busiest edge gets the full
    /// width.
    Share { count: usize, of: usize },
}

/// The share of the full width, in thousandths, at which the thinnest stroke
/// is drawn.
pub const THINNEST_PERMILLE: u16 = 100;

/// One line of the map: an edge of the forest, its two ends given by how far
/// east and north they lie of the lower left corner of the box, and how
/// heavy to draw it.
#[derive(Clone, Copy, Debug, PartialEq, Eq, Structural)]
pub struct Stroke {
    pub x_a: i64,
    pub y_a: i64,
    pub x_b: i64,
    pub y_b: i64,
    pub weight: Weight,
}

/// The sheet that the map is drawn on: what the box spans east to west and
/// north to south, and the latitude half way up.
#[derive(Clone, Copy, Debug, PartialEq, Eq, Structural)]
pub struct Page {
    pub width: i64,
    pub height: i64,
    pub mean_lat: i64,
}

/// A map of the flow: the sheet, if the box has any extent to draw on, and
/// the strokes in the order in which they are drawn.
#[derive(Clone, Debug, PartialEq, Eq)]
pub struct FlowMap {
    pub page: Option<Page>,
    pub strokes: Vec<Stroke>,
}

/// The greatest count in a usage list, zero for the empty list.
pub open spec fn max_count(uses: Seq<Usage>) -> nat
    decreases uses.len(),
{
    if uses.len() == 0 {
        0
    } else {
        let front = max_count(uses.drop_last());
        if uses.last().1 > front {
            uses.last().1 as nat
        } else {
            front
        }
    }
}

/// The number of entries at the head of a list of `len` that are left out
/// when at most `keep` are drawn.
pub open spec fn skipped(len: nat, keep: nat) -> nat {
    if len < keep {
        0
    } else {
        (len - keep) as nat
    }
}

/// How heavy an edge used `count` times is drawn when the busiest edge is
/// used `most` times.
pub open spec fn weight_of(count: usize, most: nat) -> Weight {
    if most <= 1 {
        Weight::Thinnest
    } else {
        Weight::Share { count, of: most as usize }
    }
}

/// The stroke that draws the usage `e` in the box `b`.
pub open spec fn stroke_of(nodes: Seq<Node>, b: Bounds, most: nat, e: Usage) -> Stroke {
    let a = nodes[e.0.0 as int];
    let z = nodes[e.0.1 as int];
    Stroke {
        x_a: (a.lon - b.0) as i64,
        y_a: (a.lat - b.2) as i64,
        x_b: (z.lon - b.0) as i64,
        y_b: (z.lat - b.2) as i64,
        weight: weight_of(e.1, most),
    }
}

/// The sheet for the box `b`, if no side of the box is inside out.
pub open spec fn page_of(b: Bounds) -> Option<Page> {
    if b.0 <= b.1 && b.2 <= b.3 {
        Some(
            Page {
                width: (b.1 - b.0) as i64,
                height: (b.3 - b.2) as i64,
                mean_lat: (b.2 + (b.3 - b.2) / 2) as i64,
            },
        )
    } else {
        None
    }
}

/// One line of the table of used edges: how often the edge is used, and the
/// longitude and latitude of its two ends.
#[derive(Clone, Copy, Debug, PartialEq, Eq, Structural)]
pub struct Row {
    pub count: usize,
    pub lon_a: i32,
    pub lat_a: i32,
    pub lon_b: i32,
    pub lat_b: i32,
}

/// The line of the table for the usage `e`.
pub open spec fn row_of(nodes: Seq<Node>, e: Usage) -> Row {
    let a = nodes[e.0.0 as int];
    let z = nodes[e.0.1 as int];
    Row { count: e.1, lon_a: a.lon, lat_a: a.lat, lon_b: z.lon, lat_b: z.lat }
}

/// Every edge of `uses` joins two of `n` vertices.
pub open spec fn joins_vertices(uses: Seq<Usage>, n: nat) -> bool {
    forall|i: int| 0 <= i < uses.len() ==> (#[trigger] uses[i]).0.0 < n && uses[i].0.1 < n
}

/// The counts of `uses` do not fall from one entry to the next.
pub open spec fn is_ascending(uses: Seq<Usage>) -> bool {
    forall|i: int, j: int| 0 <= i <= j < uses.len() ==> (#[trigger] uses[i]).1 <= (#[trigger] uses[j]).1
}

/// No entry counts more than `max_count`, and where there is an entry, one
/// counts as much.
pub proof fn lemma_max_count(uses: Seq<Usage>)
    ensures
        forall|i: int| 0 <= i < uses.len() ==> (#[trigger] uses[i]).1 <= max_count(uses),
        uses.len() > 0 ==> exists|i: int| 0 <= i < uses.len() && (#[trigger] uses[i]).1 == max_count(uses),
        max_count(uses) <= usize::MAX,
    decreases uses.len(),
{
    if uses.len() > 0 {
        let front = uses.drop_last();
        lemma_max_count(front);
        assert forall|i: int| 0 <= i < uses.len() implies (#[trigger] uses[i]).1 <= max_count(
            uses,
        ) by {
            if i < front.len() {
                assert(front[i] == uses[i]);
            }
        }
        if uses.last().1 > max_count(front) {
            assert(uses[uses.len() - 1].1 == max_count(uses));
        } else if front.len() > 0 {
            let i = choose|i: int| 0 <= i < front.len() && (#[trigger] front[i]).1 == max_count(front);
            assert(uses[i] == front[i]);
        }
    }
}

/// The greatest count in `uses`.
fn greatest_count(uses: &Vec<Usage>) -> (most: usize)
    ensures
        most == max_count(uses@),
{
    let mut most: usize = 0;
    let mut i: usize = 0;
    while i < uses.len()
        invariant
            i <= uses.len(),
            most == max_count(uses@.take(i as int)),
        decreases uses.len() - i,
    {
        proof {
            assert(uses@.take(i + 1).drop_last() == uses@.take(i as int));
        }
        if uses[i].1 > most {
            most = uses[i].1;
        }
        i += 1;
    }
    proof {
        assert(uses@.take(uses@.len() as int) == uses@);
    }
    most
}

/// The sheet for the box `b`.
pub fn page(b: Bounds) -> (sheet: Option<Page>)
    ensures
        sheet == page_of(b),
{
    if b.0 <= b.1 && b.2 <= b.3 {
        let width: i64 = b.1 as i64 - b.0 as i64;
        let height: i64 = b.3 as i64 - b.2 as i64;
        Some(Page { width, height, mean_lat: b.2 as i64 + height / 2 })
    } else {
        None
    }
}

impl Graph {
    /// Whether every edge of `uses` joins two vertices of the graph, as
    /// `render` and `rows` ask.
    pub fn holds(&self, uses: &Vec<Usage>) -> (ok: bool)
        ensures
            ok == joins_vertices(uses@, self.nodes().len()),
    {
        let n = self.len();
        let mut i: usize = 0;
        while i < uses.len()
            invariant
                i <= uses@.len(),
                n == self.nodes().len(),
                forall|j: int| 0 <= j < i ==> (#[trigger] uses@[j]).0.0 < n && uses@[j].0.1 < n,
            decreases uses@.len() - i,
        {
            let ((u, v), _) = uses[i];
            if u >= n || v >= n {
                return false;
            }
            i += 1;
        }
        true
    }

    /// The table of used edges: one line for each entry of `uses`, in the
    /// order of the list.
    pub fn rows(&self, uses: &Vec<Usage>) -> (table: Vec<Row>)
        requires
            joins_vertices(uses@, self.nodes().len()),
        ensures
            table@.len() == uses@.len(),
            forall|i: int|
                0 <= i < uses@.len() ==> #[trigger] table@[i] == row_of(self.nodes(), uses@[i]),
    {
        let mut table: Vec<Row> = Vec::with_capacity(uses.len());
        let mut i: usize = 0;
        while i < uses.len()
            invariant
                i <= uses@.len(),
                joins_vertices(uses@, self.nodes().len()),
                table@.len() == i,
                forall|j: int| 0 <= j < i ==> #[trigger] table@[j] == row_of(self.nodes(), uses@[j]),
            decreases uses@.len() - i,
        {
            let ((u, v), count) = uses[i];
            let a = self.node(u);
            let z = self.node(v);
            table.push(Row { count, lon_a: a.lon, lat_a: a.lat, lon_b: z.lon, lat_b: z.lat });
            i += 1;
        }
        table
    }

    /// Lays out the map of the usage list `uses` in the box `bounds`: one
    /// stroke for each of the last `keep` entries, in the order of the list,
    /// so that with a list in ascending order the busiest edges are kept and
    /// the busiest of all is drawn last. The entries before them are left
    /// out. Every stroke is weighed against the busiest edge of the whole
    /// list.
    pub fn render(&self, uses: &Vec<Usage>, keep: usize, bounds: Bounds) -> (map: FlowMap)
        requires
            joins_vertices(uses@, self.nodes().len()),
        ensures
            map.page == page_of(bounds),
            map.strokes@.len() == uses@.len() - skipped(uses@.len(), keep as nat),
            forall|i: int|
                0 <= i < map.strokes@.len() ==> #[trigger] map.strokes@[i] == stroke_of(
                    self.nodes(),
                    bounds,
                    max_count(uses@),
                    uses@[skipped(uses@.len(), keep as nat) + i],
                ),
    {
        let most = greatest_count(uses);
        let skip: usize = if uses.len() < keep {
            0
        } else {
            uses.len() - keep
        };
        let mut strokes: Vec<Stroke> = Vec::new();
        let mut i: usize = skip;
        while i < uses.len()
            invariant
                skip <= i <= uses@.len(),
                skip == skipped(uses@.len(), keep as nat),
                most == max_count(uses@),
                strokes@.len() == i - skip,
                joins_vertices(uses@, self.nodes().len()),
                forall|j: int|
                    0 <= j < strokes@.len() ==> #[trigger] strokes@[j] == stroke_of(
                        self.nodes(),
                        bounds,
                        most as nat,
                        uses@[skip + j],
                    ),
            decreases uses@.len() - i,
        {
            let ((u, v), count) = uses[i];
            let a = self.node(u);
            let z = self.node(v);
            let weight = if most <= 1 {
                Weight::Thinnest
            } else {
                Weight::Share { count, of: most }
            };
            strokes.push(
                Stroke {
                    x_a: a.lon as i64 - bounds.0 as i64,
                    y_a: a.lat as i64 - bounds.2 as i64,
                    x_b: z.lon as i64 - bounds.0 as i64,
                    y_b: z.lat as i64 - bounds.2 as i64,
                    weight,
                },
            );
            i += 1;
        }
        FlowMap { page: page(bounds), strokes }
    }
}

/// No stroke is weighed against a busiest count below two: where no edge is
/// used more than once every stroke is the thinnest, and otherwise each has
/// a share that is at least one and at most the whole.
pub proof fn lemma_weight_is_sound(uses: Seq<Usage>, i: int)
    requires
        0 <= i < uses.len(),
        forall|j: int| 0 <= j < uses.len() ==> (#[trigger] uses[j]).1 >= 1,
    ensures
        match weight_of(uses[i].1, max_count(uses)) {
            Weight::Thinnest => max_count(uses) == 1,
            Weight::Share { count, of } => {
                &&& of == max_count(uses)
                &&& count == uses[i].1
                &&& 2 <= of
                &&& 1 <= count <= of
            },
        },
{
    lemma_max_count(uses);
}

/// When fewer entries are kept than an ascending list holds, exactly `keep`
/// strokes are drawn, and no entry that is left out counts more than one
/// that is drawn.
pub proof fn lemma_busiest_are_kept(uses: Seq<Usage>, keep: nat)
    requires
        is_ascending(uses),
        keep < uses.len(),
    ensures
        uses.len() - skipped(uses.len(), keep) == keep,
        forall|i: int, j: int|
            0 <= i < skipped(uses.len(), keep) <= j < uses.len() ==> (#[trigger] uses[i]).1 <= (
            #[trigger] uses[j]).1,
{
}

/// The last entry of an ascending list is the busiest, so its stroke, which
/// is always kept when any is, is drawn last.
pub proof fn lemma_busiest_is_last(uses: Seq<Usage>)
    requires
        is_ascending(uses),
        uses.len() > 0,
    ensures
        uses.last().1 == max_count(uses),
{
    lemma_max_count(uses);
    let i = choose|i: int| 0 <= i < uses.len() && (#[trigger] uses[i]).1 == max_count(uses);
    assert(uses[i].1 <= uses[uses.len() - 1].1);
}

/// A usage list, ordered by count and then by vertex, is in ascending order.
pub proof fn lemma_usage_list_is_ascending(pred: Seq<usize>, uses: Seq<Usage>)
    requires
        crate::usage::is_usage_list(pred, uses),
    ensures
        is_ascending(uses),
{
    assert forall|i: int, j: int| 0 <= i <= j < uses.len() implies (#[trigger] uses[i]).1 <= (
    #[trigger] uses[j]).1 by {
        if i < j {
            assert(lists_before(uses[i], uses[j]));
        }
    }
}

} // verus!
