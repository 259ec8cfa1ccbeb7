//! Segments, embeddings, codes and the entries of the inverted lists.

use vstd::prelude::*;
use crate::text::{
    chars_of, decimal, free_of, is_digit, lemma_decimal, lemma_digits_free, lemma_split_first,
    lemma_split_last, lemma_split_none, lemma_without_add, lemma_without_free, number_up_to,
    parse_number, push_decimal, remove_all, slice_of, split, split_fields, string_of, texts,
    without,
};
use crate::constants::{
    CENTROIDS_PER_SUBSPACE_CLUSTER, CQ_K_CENTROIDS, EMBEDDING_DIM, EMBEDDING_M_SEGMENTS,
    SEGMENT_DIM,
};

verus! {

/// Index of a centroid.
pub type Clusters = u8;

/// One centroid choice per segment.
pub type PqCode = [Clusters; EMBEDDING_M_SEGMENTS];

/// `table[c][s]` is the distance between segment `s` of centroid `c` and
/// segment `s` of a query. Cells are compared as patterns: among distances
/// that is the order of the numbers, and the pattern of a NaN is above that
/// of every distance.
pub type DistanceTable = [[u64; EMBEDDING_M_SEGMENTS]; CENTROIDS_PER_SUBSPACE_CLUSTER];

/// One centroid per coarse cluster.
pub type Codebook = [Embedding; CQ_K_CENTROIDS];

/// A run of `SEGMENT_DIM` coordinates.
#[derive(Clone, Copy, Debug, PartialEq, Eq)]
pub struct Segment(pub [u64; SEGMENT_DIM]);

impl View for Segment {
    type V = Seq<u64>;

    open spec fn view(&self) -> Seq<u64> {
        self.0@
    }
}

impl Segment {
    /// The segment of these coordinates.
    pub fn new(src: [u64; SEGMENT_DIM]) -> (s: Self)
        ensures
            s@ == src@,
            s.0 == src,
    {
        Segment(src)
    }

    /// The coordinates in order.
    pub fn to_vec(&self) -> (v: Vec<u64>)
        ensures
            v@ == self@,
    {
        let mut v: Vec<u64> = Vec::new();
        let mut i: usize = 0;
        while i < SEGMENT_DIM
            invariant
                i <= SEGMENT_DIM,
                v@ == self@.subrange(0, i as int),
            decreases SEGMENT_DIM - i,
        {
            v.push(self.0[i]);
            i += 1;
        }
        v
    }
}

impl Default for Segment {
    /// The segment whose coordinates are all zero.
    fn default() -> (s: Self)
        ensures
            forall|i: int| 0 <= i < SEGMENT_DIM ==> s@[i] == 0,
    {
        Segment([0u64; SEGMENT_DIM])
    }
}

/// An embedding: `EMBEDDING_M_SEGMENTS` segments.
#[derive(Clone, Copy, Debug, PartialEq, Eq)]
pub struct Embedding(pub [Segment; EMBEDDING_M_SEGMENTS]);

/// Why a vector is no embedding.
#[derive(Clone, Copy, Debug, PartialEq, Eq)]
pub enum ShapeError {
    /// The vector holds this many coordinates, not `EMBEDDING_DIM`.
    WrongLength(usize),
}

impl View for Embedding {
    type V = Seq<Seq<u64>>;

    open spec fn view(&self) -> Seq<Seq<u64>> {
        Seq::new(EMBEDDING_M_SEGMENTS as nat, |s: int| self.0[s]@)
    }
}

/// The segments that a run of `EMBEDDING_DIM` coordinates is cut into.
pub open spec fn segments_of(flat: Seq<u64>) -> Seq<Seq<u64>> {
    Seq::new(
        EMBEDDING_M_SEGMENTS as nat,
        |s: int| flat.subrange(s * SEGMENT_DIM as int, (s + 1) * SEGMENT_DIM as int),
    )
}

impl Embedding {
    /// The coordinates in order, segment after segment.
    pub open spec fn flat(&self) -> Seq<u64> {
        Seq::new(
            EMBEDDING_DIM as nat,
            |i: int| self.0[i / SEGMENT_DIM as int].0[i % SEGMENT_DIM as int],
        )
    }

    /// The embedding of these segments.
    pub fn new(src: [Segment; EMBEDDING_M_SEGMENTS]) -> (e: Self)
        ensures
            e.0 == src,
    {
        Embedding(src)
    }

    /// The segments in order.
    pub fn into_segments(&self) -> (segments: &[Segment; EMBEDDING_M_SEGMENTS])
        ensures
            *segments == self.0,
    {
        &self.0
    }

    /// Cuts a run of `EMBEDDING_DIM` coordinates into segments. A run of any
    /// other length is no embedding: `from_vec` tells such a run apart.
    pub fn from_base(src: &Vec<u64>) -> (e: Self)
        requires
            src.len() == EMBEDDING_DIM,
        ensures
            e@ == segments_of(src@),
            e.flat() == src@,
    {
        let mut emb: [Segment; EMBEDDING_M_SEGMENTS] = [Segment([0u64; SEGMENT_DIM]); EMBEDDING_M_SEGMENTS];
        let mut segment: usize = 0;
        while segment < EMBEDDING_M_SEGMENTS
            invariant
                segment <= EMBEDDING_M_SEGMENTS,
                src.len() == EMBEDDING_DIM,
                forall|s: int, j: int|
                    0 <= s < segment && 0 <= j < SEGMENT_DIM ==> #[trigger] emb[s].0[j]
                        == src[s * SEGMENT_DIM as int + j],
            decreases EMBEDDING_M_SEGMENTS - segment,
        {
            let last: usize = segment * SEGMENT_DIM;
            let mut seg: [u64; SEGMENT_DIM] = [0u64; SEGMENT_DIM];
            let mut element: usize = 0;
            while element < SEGMENT_DIM
                invariant
                    element <= SEGMENT_DIM,
                    segment < EMBEDDING_M_SEGMENTS,
                    last == segment * SEGMENT_DIM,
                    src.len() == EMBEDDING_DIM,
                    forall|j: int| 0 <= j < element ==> #[trigger] seg[j] == src[last + j],
                decreases SEGMENT_DIM - element,
            {
                seg[element] = src[last + element];
                element += 1;
            }
            emb[segment] = Segment(seg);
            segment += 1;
        }
        let e = Embedding(emb);
        proof {
            assert forall|s: int| 0 <= s < EMBEDDING_M_SEGMENTS implies #[trigger] e@[s]
                == segments_of(src@)[s] by {
                assert(e@[s] =~= segments_of(src@)[s]);
            }
            assert(e@ =~= segments_of(src@));
            assert(e.flat() =~= src@);
        }
        e
    }

    /// Cuts a run of exactly `EMBEDDING_DIM` coordinates into segments.
    pub fn from_vec(src: &Vec<u64>) -> (r: Result<Self, ShapeError>)
        ensures
            src.len() == EMBEDDING_DIM ==> r is Ok && r->Ok_0.flat() == src@ && r->Ok_0@
                == segments_of(src@),
            src.len() != EMBEDDING_DIM ==> r is Err && r->Err_0 == ShapeError::WrongLength(
                src.len(),
            ),
    {
        if src.len() == EMBEDDING_DIM {
            Ok(Embedding::from_base(src))
        } else {
            Err(ShapeError::WrongLength(src.len()))
        }
    }

    /// The coordinates in order, segment after segment.
    pub fn to_vec(&self) -> (v: Vec<u64>)
        ensures
            v@ == self.flat(),
            v.len() == EMBEDDING_DIM,
    {
        let mut arr: Vec<u64> = Vec::new();
        let mut s: usize = 0;
        while s < EMBEDDING_M_SEGMENTS
            invariant
                s <= EMBEDDING_M_SEGMENTS,
                arr.len() == s * SEGMENT_DIM,
                forall|i: int| 0 <= i < arr.len() ==> #[trigger] arr[i] == self.flat()[i],
            decreases EMBEDDING_M_SEGMENTS - s,
        {
            let mut j: usize = 0;
            while j < SEGMENT_DIM
                invariant
                    j <= SEGMENT_DIM,
                    s < EMBEDDING_M_SEGMENTS,
                    arr.len() == s * SEGMENT_DIM + j,
                    forall|i: int| 0 <= i < arr.len() ==> #[trigger] arr[i] == self.flat()[i],
                decreases SEGMENT_DIM - j,
            {
                arr.push(self.0[s].0[j]);
                j += 1;
            }
            s += 1;
        }
        assert(arr@ =~= self.flat());
        arr
    }
}

impl Default for Embedding {
    /// The embedding whose coordinates are all zero.
    fn default() -> (e: Self)
        ensures
            forall|i: int| 0 <= i < EMBEDDING_DIM ==> e.flat()[i] == 0,
    {
        Embedding([Segment([0u64; SEGMENT_DIM]); EMBEDDING_M_SEGMENTS])
    }
}

/// Flattening an embedding and cutting the result again gives the embedding
/// back: any embedding with the same coordinates in order is the same
/// embedding.
pub proof fn lemma_round_trip(e: Embedding)
    ensures
        segments_of(e.flat()) == e@,
        forall|other: Embedding| other.flat() == e.flat() ==> other == e,
        forall|other: Embedding| other@ == e@ ==> other == e,
{
    lemma_segments_of_flat(e);
    assert forall|other: Embedding| other@ == e@ implies other == e by {
        lemma_view_decides(other, e);
    }
    assert forall|other: Embedding| other.flat() == e.flat() implies other == e by {
        lemma_segments_of_flat(other);
        lemma_view_decides(other, e);
    }
}

proof fn lemma_segments_of_flat(e: Embedding)
    ensures
        segments_of(e.flat()) == e@,
{
    assert forall|s: int| 0 <= s < EMBEDDING_M_SEGMENTS implies #[trigger] segments_of(
        e.flat(),
    )[s] == e@[s] by {
        assert(segments_of(e.flat())[s] =~= e@[s]);
    }
    assert(segments_of(e.flat()) =~= e@);
}

proof fn lemma_view_decides(a: Embedding, b: Embedding)
    requires
        a@ == b@,
    ensures
        a == b,
{
    assert forall|s: int| 0 <= s < EMBEDDING_M_SEGMENTS implies a.0[s] == b.0[s] by {
        assert(a@[s] == b@[s]);
        assert(a.0[s].0@ == b.0[s].0@);
        assert(a.0[s].0 =~= b.0[s].0);
    }
    assert(a.0 =~= b.0);
}

/// Column `s` of a table: the distances from a query's segment `s` to segment
/// `s` of each centroid, by centroid.
pub open spec fn column(table: DistanceTable, s: int) -> Seq<u64> {
    Seq::new(CENTROIDS_PER_SUBSPACE_CLUSTER as nat, |c: int| table[c][s])
}

/// Cell `c` of `col` holds its smallest distance: no cell holds a smaller one.
pub open spec fn is_smallest(col: Seq<u64>, c: int) -> bool {
    &&& 0 <= c < col.len()
    &&& forall|j: int| 0 <= j < col.len() ==> col[c] <= #[trigger] col[j]
}

/// `c` is the first cell of `col` that holds its smallest distance: no cell
/// holds a smaller one, and every cell before it holds a greater one.
pub open spec fn is_nearest(col: Seq<u64>, c: int) -> bool {
    &&& 0 <= c < col.len()
    &&& forall|j: int| 0 <= j < col.len() ==> col[c] <= #[trigger] col[j]
    &&& forall|j: int| 0 <= j < c ==> col[c] < #[trigger] col[j]
}

/// The centroid that a column selects: the first cell that holds its
/// smallest distance.
pub open spec fn nearest(col: Seq<u64>) -> int {
    choose|c: int| is_nearest(col, c)
}

/// The code that a table selects, segment by segment.
pub open spec fn encoded(table: DistanceTable) -> Seq<int> {
    Seq::new(EMBEDDING_M_SEGMENTS as nat, |s: int| nearest(column(table, s)))
}

/// The code that a table selects, as a code.
pub open spec fn code_of(table: DistanceTable) -> PqCode {
    choose|code: PqCode| is_code_of(code, table)
}

/// `code` holds in each cell the centroid that the table's column selects.
pub open spec fn is_code_of(code: PqCode, table: DistanceTable) -> bool {
    forall|s: int| 0 <= s < EMBEDDING_M_SEGMENTS ==> code[s] as int == #[trigger] encoded(table)[s]
}

/// A table selects one code only: coding is a function of the table.
pub proof fn lemma_code_unique(a: PqCode, b: PqCode, table: DistanceTable)
    requires
        is_code_of(a, table),
        is_code_of(b, table),
    ensures
        a == b,
{
    assert forall|s: int| 0 <= s < EMBEDDING_M_SEGMENTS implies a[s] == b[s] by {
        assert(a[s] as int == encoded(table)[s]);
        assert(b[s] as int == encoded(table)[s]);
    }
    assert(a =~= b);
}

/// A column has at most one nearest cell.
pub proof fn lemma_nearest_unique(col: Seq<u64>, a: int, b: int)
    requires
        is_nearest(col, a),
        is_nearest(col, b),
    ensures
        a == b,
{
    if a < b {
        assert(col[b] < col[a]);
        assert(col[a] <= col[b]);
    } else if b < a {
        assert(col[a] < col[b]);
        assert(col[b] <= col[a]);
    }
}

/// A column with a cell has a nearest cell, and selects it.
pub proof fn lemma_nearest_exists(col: Seq<u64>)
    requires
        col.len() > 0,
    ensures
        is_nearest(col, nearest(col)),
{
    lemma_first_minimum(col, col.len() as int);
    assert(is_nearest(col, first_minimum(col, col.len() as int)));
}

/// The centroid selected is the least index among the centroids at the
/// smallest distance: of two centroids at the same distance from a segment,
/// the one with the higher index is never selected, and no centroid before
/// the selected one is as near.
pub proof fn lemma_tie_break(col: Seq<u64>, i: int, j: int)
    requires
        0 <= i < j < col.len(),
        col[i] == col[j],
    ensures
        nearest(col) != j,
        is_nearest(col, nearest(col)),
        forall|c: int| #[trigger] is_smallest(col, c) ==> nearest(col) <= c,
{
    lemma_least_index(col);
    if nearest(col) == j {
        assert(col[j] < col[i]);
    }
}

/// The centroid selected is at the smallest distance of the column, and it
/// is the least index at that distance.
pub proof fn lemma_least_index(col: Seq<u64>)
    requires
        col.len() > 0,
    ensures
        is_nearest(col, nearest(col)),
        forall|c: int| #[trigger] is_smallest(col, c) ==> nearest(col) <= c,
{
    lemma_nearest_exists(col);
    let n = nearest(col);
    assert forall|c: int| #[trigger] is_smallest(col, c) implies n <= c by {
        if c < n {
            assert(col[n] < col[c]);
            assert(col[c] <= col[n]);
        }
    }
}

/// The first cell among the first `n` that holds their smallest value.
pub open spec fn first_minimum(col: Seq<u64>, n: int) -> int
    decreases n,
{
    if n <= 1 {
        0
    } else {
        let m = first_minimum(col, n - 1);
        if col[n - 1] < col[m] {
            n - 1
        } else {
            m
        }
    }
}

proof fn lemma_first_minimum(col: Seq<u64>, n: int)
    requires
        0 < n <= col.len(),
    ensures
        0 <= first_minimum(col, n) < n,
        forall|j: int| 0 <= j < n ==> col[first_minimum(col, n)] <= #[trigger] col[j],
        forall|j: int|
            0 <= j < first_minimum(col, n) ==> col[first_minimum(col, n)] < #[trigger] col[j],
    decreases n,
{
    if n > 1 {
        lemma_first_minimum(col, n - 1);
    }
}

impl Embedding {
    /// The code of the embedding whose distances to a codebook's centroids
    /// `table` holds: for each segment the nearest centroid, the lowest index
    /// among equally near ones.
    pub fn encode(table: &DistanceTable) -> (code: PqCode)
        ensures
            code == code_of(*table),
            is_code_of(code, *table),
            forall|s: int|
                0 <= s < EMBEDDING_M_SEGMENTS ==> is_nearest(
                    column(*table, s),
                    (#[trigger] code[s]) as int,
                ),
            forall|s: int|
                0 <= s < EMBEDDING_M_SEGMENTS ==> (#[trigger] code[s])
                    < CENTROIDS_PER_SUBSPACE_CLUSTER,
    {
        let mut code: PqCode = [0u8; EMBEDDING_M_SEGMENTS];
        let mut s: usize = 0;
        while s < EMBEDDING_M_SEGMENTS
            invariant
                s <= EMBEDDING_M_SEGMENTS,
                forall|t: int| 0 <= t < s ==> code[t] as int == #[trigger] encoded(*table)[t],
                forall|t: int|
                    0 <= t < s ==> is_nearest(column(*table, t), (#[trigger] code[t]) as int),
            decreases EMBEDDING_M_SEGMENTS - s,
        {
            let ghost col = column(*table, s as int);
            let mut best: u8 = 0;
            let mut min: u64 = table[0][s];
            let mut c: usize = 1;
            while c < CENTROIDS_PER_SUBSPACE_CLUSTER
                invariant
                    1 <= c <= CENTROIDS_PER_SUBSPACE_CLUSTER,
                    s < EMBEDDING_M_SEGMENTS,
                    col == column(*table, s as int),
                    best < c,
                    col[best as int] == min,
                    forall|j: int| 0 <= j < c ==> min <= #[trigger] col[j],
                    forall|j: int| 0 <= j < best ==> min < #[trigger] col[j],
                decreases CENTROIDS_PER_SUBSPACE_CLUSTER - c,
            {
                let cell: u64 = table[c][s];
                assert(cell == col[c as int]);
                if cell < min {
                    best = c as u8;
                    min = cell;
                }
                c += 1;
            }
            proof {
                assert(is_nearest(col, best as int));
                lemma_nearest_unique(col, nearest(col), best as int);
            }
            code[s] = best;
            s += 1;
        }
        proof {
            assert(is_code_of(code, *table));
            lemma_code_unique(code, code_of(*table), *table);
        }
        code
    }
}

/// What an inverted list stores of a vector: its code and its coarse cluster.
#[derive(Clone, Copy, Debug, PartialEq, Eq)]
pub struct IVListEntry {
    pub pq_code: PqCode,
    pub cluster: Clusters,
}

impl IVListEntry {
    /// The entry of a vector with this code in this cluster.
    pub fn new(pq_code: PqCode, cluster: Clusters) -> (entry: Self)
        ensures
            entry.pq_code == pq_code,
            entry.cluster == cluster,
    {
        IVListEntry { pq_code, cluster }
    }

    /// The code of the stored vector.
    pub fn get_code(&self) -> (code: &PqCode)
        ensures
            *code == self.pq_code,
    {
        &self.pq_code
    }
}

/// What is wrong with a text that should spell a stored value.
#[derive(Clone, Copy, Debug, PartialEq, Eq)]
pub enum ParseError {
    /// A code is not `EMBEDDING_M_SEGMENTS` numbers up to 255 between commas
    /// and within square brackets.
    Code,
    /// A cluster is not a number up to 255.
    Cluster,
    /// An entry is not a code and a cluster with one `;` between them.
    Entry,
    /// A vector id is not a number that 32 bits hold.
    Key,
    /// A line is not a vector id and an entry with one `:` between them.
    Line,
    /// A map is not within curly brackets, or its last line does not end.
    Frame,
}

/// The code with these cells.
pub open spec fn code_with(cells: Seq<u8>) -> PqCode {
    choose|code: PqCode| code@ == cells
}

/// The cells that the fields spell, if each spells a number up to 255.
pub open spec fn cells_from(fields: Seq<Seq<char>>) -> Option<Seq<u8>> {
    if forall|i: int| 0 <= i < fields.len() ==> (#[trigger] number_up_to(fields[i], 255)) is Some {
        Some(Seq::new(fields.len(), |i: int| number_up_to(fields[i], 255)->Some_0 as u8))
    } else {
        None
    }
}

/// The code that a text spells. Blanks count nowhere. What is left starts
/// with `[`, ends with `]`, and holds between them `EMBEDDING_M_SEGMENTS`
/// numbers up to 255 with a comma between each two.
pub open spec fn code_from_text(s: Seq<char>) -> Option<PqCode> {
    let t = without(s, ' ');
    if t.len() >= 2 && t.first() == '[' && t.last() == ']' {
        let fields = split(t.subrange(1, t.len() - 1), ',');
        if fields.len() == EMBEDDING_M_SEGMENTS && cells_from(fields) is Some {
            Some(code_with(cells_from(fields)->Some_0))
        } else {
            None
        }
    } else {
        None
    }
}

/// The entry that a text spells: a code, a `;`, and the number of a cluster.
pub open spec fn entry_from_text(s: Seq<char>) -> Result<IVListEntry, ParseError> {
    let fields = split(s, ';');
    if fields.len() != 2 {
        Err(ParseError::Entry)
    } else if code_from_text(fields[0]) is None {
        Err(ParseError::Code)
    } else if number_up_to(fields[1], 255) is None {
        Err(ParseError::Cluster)
    } else {
        Ok(
            IVListEntry {
                pq_code: code_from_text(fields[0])->Some_0,
                cluster: number_up_to(fields[1], 255)->Some_0 as u8,
            },
        )
    }
}

/// The cells in decimal, with a comma and a blank between each two.
pub open spec fn cells_text(cells: Seq<u8>) -> Seq<char>
    decreases cells.len(),
{
    if cells.len() == 0 {
        Seq::empty()
    } else if cells.len() == 1 {
        decimal(cells[0] as nat)
    } else {
        cells_text(cells.drop_last()) + seq![',', ' '] + decimal(cells.last() as nat)
    }
}

/// A code as text: its cells within square brackets.
pub open spec fn code_text(code: PqCode) -> Seq<char> {
    seq!['['] + cells_text(code@) + seq![']']
}

/// An entry as text: its code, a `;`, its cluster.
pub open spec fn entry_text(entry: IVListEntry) -> Seq<char> {
    code_text(entry.pq_code) + seq![';'] + decimal(entry.cluster as nat)
}

fn parse_code(source: &Vec<char>) -> (r: Option<PqCode>)
    ensures
        r == code_from_text(source@),
{
    let t = remove_all(source, ' ');
    let n = t.len();
    if n < 2 || t[0] != '[' || t[n - 1] != ']' {
        return None;
    }
    let inner = slice_of(&t, 1, n - 1);
    let fields = split_fields(&inner, ',');
    if fields.len() != EMBEDDING_M_SEGMENTS {
        return None;
    }
    let ghost parts = split(inner@, ',');
    let mut code: PqCode = [0u8; EMBEDDING_M_SEGMENTS];
    let mut ind: usize = 0;
    while ind < EMBEDDING_M_SEGMENTS
        invariant
            ind <= EMBEDDING_M_SEGMENTS,
            fields.len() == EMBEDDING_M_SEGMENTS,
            texts(fields@) == parts,
            t@ == without(source@, ' '),
            n == t.len(),
            n >= 2 && t[0] == '[' && t[n - 1] == ']',
            parts == split(t@.subrange(1, n - 1), ','),
            forall|i: int| 0 <= i < ind ==> (#[trigger] number_up_to(parts[i], 255)) is Some,
            forall|i: int|
                0 <= i < ind ==> #[trigger] code[i] == number_up_to(parts[i], 255)->Some_0 as u8,
        decreases EMBEDDING_M_SEGMENTS - ind,
    {
        assert(parts[ind as int] == fields[ind as int]@);
        match parse_number(&fields[ind], 255) {
            Some(v) => {
                code[ind] = v as u8;
            },
            None => {
                assert(cells_from(parts) is None);
                return None;
            },
        }
        ind += 1;
    }
    proof {
        assert(cells_from(parts) is Some);
        assert(code@ =~= cells_from(parts)->Some_0);
        let other = code_with(cells_from(parts)->Some_0);
        assert(other@ == code@);
        assert(other =~= code);
    }
    Some(code)
}

/// The code that a text spells.
pub fn code_from_src(source: &str) -> (r: Result<PqCode, ParseError>)
    ensures
        code_from_text(source@) is Some ==> r is Ok && r->Ok_0 == code_from_text(
            source@,
        )->Some_0,
        code_from_text(source@) is None ==> r is Err && r->Err_0 == ParseError::Code,
{
    let chars = chars_of(source);
    match parse_code(&chars) {
        Some(code) => Ok(code),
        None => Err(ParseError::Code),
    }
}

/// The entry that a run of characters spells.
pub fn parse_entry(source: &Vec<char>) -> (r: Result<IVListEntry, ParseError>)
    ensures
        r == entry_from_text(source@),
{
    let splitted = split_fields(source, ';');
    if splitted.len() != 2 {
        return Err(ParseError::Entry);
    }
    assert(split(source@, ';')[0] == splitted[0]@);
    assert(split(source@, ';')[1] == splitted[1]@);
    let code = match parse_code(&splitted[0]) {
        Some(code) => code,
        None => {
            return Err(ParseError::Code);
        },
    };
    match parse_number(&splitted[1], 255) {
        Some(cluster) => Ok(IVListEntry { pq_code: code, cluster: cluster as u8 }),
        None => Err(ParseError::Cluster),
    }
}

/// Appends the text of an entry.
pub fn push_entry(out: &mut Vec<char>, entry: &IVListEntry)
    ensures
        final(out)@ == old(out)@ + entry_text(*entry),
{
    let ghost start = out@;
    out.push('[');
    let mut ind: usize = 0;
    proof {
        assert(entry.pq_code@.subrange(0, 0) =~= Seq::<u8>::empty());
    }
    while ind < EMBEDDING_M_SEGMENTS
        invariant
            ind <= EMBEDDING_M_SEGMENTS,
            out@ == start + seq!['['] + cells_text(entry.pq_code@.subrange(0, ind as int)),
        decreases EMBEDDING_M_SEGMENTS - ind,
    {
        let ghost before = out@;
        let ghost front = entry.pq_code@.subrange(0, ind as int);
        let ghost next = entry.pq_code@.subrange(0, ind + 1);
        proof {
            assert(next.drop_last() =~= front);
            assert(next.last() == entry.pq_code[ind as int]);
        }
        if ind > 0 {
            out.push(',');
            out.push(' ');
        }
        push_decimal(out, entry.pq_code[ind] as u32);
        proof {
            if ind > 0 {
                assert(out@ =~= before + seq![',', ' '] + decimal(entry.pq_code[ind as int] as nat));
                assert(out@ =~= start + seq!['['] + cells_text(next));
            } else {
                assert(cells_text(front) =~= Seq::<char>::empty());
                assert(out@ =~= start + seq!['['] + cells_text(next));
            }
        }
        ind += 1;
    }
    proof {
        assert(entry.pq_code@.subrange(0, EMBEDDING_M_SEGMENTS as int) =~= entry.pq_code@);
    }
    out.push(']');
    out.push(';');
    push_decimal(out, entry.cluster as u32);
    assert(out@ =~= start + entry_text(*entry));
}

impl IVListEntry {
    /// The entry that a text spells.
    pub fn from_str(source: &str) -> (r: Result<Self, ParseError>)
        ensures
            r == entry_from_text(source@),
    {
        let chars = chars_of(source);
        parse_entry(&chars)
    }

    /// The entry as text.
    pub fn to_string(&self) -> (text: String)
        ensures
            text@ == entry_text(*self),
    {
        let mut out: Vec<char> = Vec::new();
        push_entry(&mut out, self);
        assert(out@ =~= entry_text(*self));
        string_of(&out)
    }
}

/// The coordinates that a text lists: square brackets count nowhere, commas
/// part the fields, and blanks within a field do not count. Fields after the
/// first `EMBEDDING_DIM` are left out.
pub open spec fn coordinate_fields(s: Seq<char>) -> Seq<Seq<char>> {
    let fields = split(without(without(s, '['), ']'), ',');
    Seq::new(EMBEDDING_DIM as nat, |i: int| without(fields[i], ' '))
}

/// The number of fields that commas part a text into.
pub open spec fn coordinate_count(s: Seq<char>) -> nat {
    split(without(without(s, '['), ']'), ',').len()
}

/// The views of a run of texts.
pub open spec fn strings(fields: Seq<String>) -> Seq<Seq<char>> {
    fields.map_values(|f: String| f@)
}

impl Embedding {
    /// The coordinates of an embedding as a text lists them, each still as
    /// text; the caller reads each as a number.
    pub fn fields_from_str(src: &str) -> (r: Result<Vec<String>, ShapeError>)
        ensures
            coordinate_count(src@) >= EMBEDDING_DIM ==> r is Ok && strings(r->Ok_0@)
                == coordinate_fields(src@),
            coordinate_count(src@) < EMBEDDING_DIM ==> r is Err && r->Err_0
                == ShapeError::WrongLength(coordinate_count(src@) as usize),
    {
        let chars = chars_of(src);
        let opened = remove_all(&chars, '[');
        let bare = remove_all(&opened, ']');
        let src_iter = split_fields(&bare, ',');
        if src_iter.len() < EMBEDDING_DIM {
            return Err(ShapeError::WrongLength(src_iter.len()));
        }
        let ghost fields = split(without(without(src@, '['), ']'), ',');
        let mut out: Vec<String> = Vec::new();
        let mut f: usize = 0;
        while f < EMBEDDING_DIM
            invariant
                f <= EMBEDDING_DIM,
                src_iter.len() >= EMBEDDING_DIM,
                texts(src_iter@) == fields,
                out.len() == f,
                forall|i: int| 0 <= i < f ==> (#[trigger] out[i])@ == without(fields[i], ' '),
            decreases EMBEDDING_DIM - f,
        {
            assert(fields[f as int] == src_iter[f as int]@);
            let nxt = remove_all(&src_iter[f], ' ');
            out.push(string_of(&nxt));
            f += 1;
        }
        assert(strings(out@) =~= coordinate_fields(src@));
        Ok(out)
    }
}

/// The cells in decimal, with a comma between each two.
pub open spec fn cells_joined(cells: Seq<u8>) -> Seq<char>
    decreases cells.len(),
{
    if cells.len() == 0 {
        Seq::empty()
    } else if cells.len() == 1 {
        decimal(cells[0] as nat)
    } else {
        cells_joined(cells.drop_last()) + seq![','] + decimal(cells.last() as nat)
    }
}

/// The text of cells holds digits, commas and blanks only.
pub proof fn lemma_cells_text_free(cells: Seq<u8>, c: char)
    requires
        !is_digit(c),
        c != ',',
        c != ' ',
    ensures
        free_of(cells_text(cells), c),
        free_of(cells_joined(cells), c),
    decreases cells.len(),
{
    if cells.len() == 1 {
        lemma_decimal(cells[0] as nat);
        lemma_digits_free(decimal(cells[0] as nat), c);
    } else if cells.len() > 1 {
        lemma_cells_text_free(cells.drop_last(), c);
        lemma_decimal(cells.last() as nat);
        lemma_digits_free(decimal(cells.last() as nat), c);
    }
}

/// The text of a code holds digits, commas, blanks and square brackets only.
pub proof fn lemma_code_text_free(code: PqCode, c: char)
    requires
        !is_digit(c),
        c != ',',
        c != ' ',
        c != '[',
        c != ']',
    ensures
        free_of(code_text(code), c),
{
    lemma_cells_text_free(code@, c);
}

/// The text of an entry holds digits, commas, blanks, square brackets and
/// one `;` only.
pub proof fn lemma_entry_text_free(entry: IVListEntry, c: char)
    requires
        !is_digit(c),
        c != ',',
        c != ' ',
        c != '[',
        c != ']',
        c != ';',
    ensures
        free_of(entry_text(entry), c),
{
    lemma_code_text_free(entry.pq_code, c);
    lemma_decimal(entry.cluster as nat);
    lemma_digits_free(decimal(entry.cluster as nat), c);
}

proof fn lemma_cells_without_blanks(cells: Seq<u8>)
    ensures
        without(cells_text(cells), ' ') == cells_joined(cells),
    decreases cells.len(),
{
    if cells.len() == 0 {
    } else if cells.len() == 1 {
        lemma_decimal(cells[0] as nat);
        lemma_digits_free(decimal(cells[0] as nat), ' ');
        lemma_without_free(decimal(cells[0] as nat), ' ');
    } else {
        let front = cells.drop_last();
        let last = decimal(cells.last() as nat);
        lemma_cells_without_blanks(front);
        lemma_decimal(cells.last() as nat);
        lemma_digits_free(last, ' ');
        lemma_without_free(last, ' ');
        lemma_without_add(cells_text(front) + seq![',', ' '], last, ' ');
        lemma_without_add(cells_text(front), seq![',', ' '], ' ');
        assert(without(seq![',', ' '], ' ') =~= seq![',']) by {
            let two = seq![',', ' '];
            assert(two.drop_last() =~= seq![',']);
            assert(two.last() == ' ');
            lemma_without_free(seq![','], ' ');
        }
    }
}

proof fn lemma_cells_split(cells: Seq<u8>)
    requires
        cells.len() >= 1,
    ensures
        split(cells_joined(cells), ',') == Seq::new(
            cells.len(),
            |i: int| decimal(cells[i] as nat),
        ),
    decreases cells.len(),
{
    let fields = Seq::new(cells.len(), |i: int| decimal(cells[i] as nat));
    lemma_decimal(cells.last() as nat);
    lemma_digits_free(decimal(cells.last() as nat), ',');
    if cells.len() == 1 {
        lemma_split_none(decimal(cells[0] as nat), ',');
        assert(seq![decimal(cells[0] as nat)] =~= fields);
    } else {
        let front = cells.drop_last();
        lemma_cells_split(front);
        lemma_split_last(cells_joined(front), decimal(cells.last() as nat), ',');
        assert(split(cells_joined(front), ',').push(decimal(cells.last() as nat)) =~= fields);
    }
}

/// A code is the code that its text spells, with or without blanks before it.
pub proof fn lemma_code_round_trip(code: PqCode, pre: Seq<char>)
    requires
        without(pre, ' ').len() == 0,
    ensures
        code_from_text(pre + code_text(code)) == Some(code),
{
    let cells = code@;
    let joined = cells_joined(cells);
    let t = without(pre + code_text(code), ' ');
    lemma_without_add(pre, code_text(code), ' ');
    lemma_without_add(seq!['['] + cells_text(cells), seq![']'], ' ');
    lemma_without_add(seq!['['], cells_text(cells), ' ');
    lemma_cells_without_blanks(cells);
    lemma_without_free(seq!['['], ' ');
    lemma_without_free(seq![']'], ' ');
    assert(t =~= seq!['['] + joined + seq![']']);
    assert(t.subrange(1, t.len() - 1) =~= joined);
    lemma_cells_split(cells);
    let fields = split(joined, ',');
    assert forall|i: int| 0 <= i < fields.len() implies (#[trigger] number_up_to(fields[i], 255))
        == Some(cells[i] as nat) by {
        lemma_decimal(cells[i] as nat);
    }
    assert(cells_from(fields)->Some_0 =~= cells);
    let other = code_with(cells);
    assert(code@ == cells);
    assert(other@ == cells);
    assert(other =~= code);
}

/// An entry is the entry that its text spells, with or without blanks
/// before it.
pub proof fn lemma_entry_round_trip(entry: IVListEntry, pre: Seq<char>)
    requires
        without(pre, ' ').len() == 0,
        free_of(pre, ';'),
    ensures
        entry_from_text(pre + entry_text(entry)) == Ok::<IVListEntry, ParseError>(entry),
{
    let code = pre + code_text(entry.pq_code);
    let cluster = decimal(entry.cluster as nat);
    lemma_code_text_free(entry.pq_code, ';');
    lemma_decimal(entry.cluster as nat);
    lemma_digits_free(cluster, ';');
    assert(free_of(code, ';')) by {
        assert forall|i: int| 0 <= i < code.len() implies #[trigger] code[i] != ';' by {
            if i < pre.len() {
                assert(code[i] == pre[i]);
            } else {
                assert(code[i] == code_text(entry.pq_code)[i - pre.len()]);
            }
        }
    }
    assert(pre + entry_text(entry) =~= code + seq![';'] + cluster);
    lemma_split_first(code, cluster, ';');
    lemma_split_none(cluster, ';');
    let fields = split(pre + entry_text(entry), ';');
    assert(fields =~= seq![code, cluster]);
    lemma_code_round_trip(entry.pq_code, pre);
}

} // verus!
