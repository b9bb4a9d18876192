//! A line-oriented trajectory: a header that fixes the atom count and the
//! cell, then frames of one header line and one record line per atom.
//!
//! The reader holds the current frame only. Each successful `advance`
//! overwrites it, so a caller that needs an earlier frame copies it out first.
use vstd::prelude::*;
use crate::fixed::MAX_LENGTH;
use crate::periodic::{PeriodicBox, Point};
use crate::text::{int_field, length_field, line_bytes, parse_fixed, parse_int, tokenize, tokens};

verus! {

/// Tag of the atoms of the first group.
pub const GROUP_A_TAG: i64 = 1;

/// Tag of the atoms of the second group.
pub const GROUP_B_TAG: i64 = 2;

/// Why a trajectory could not be read.
#[derive(Debug, Clone, Copy, PartialEq, Eq, Structural)]
pub enum TrajectoryError {
    /// A line has fewer tokens than its fields need.
    MissingField,
    /// A field is not a number, or is out of range.
    InvalidNumber,
    /// A cell extent is not positive.
    InvalidBox,
    /// The stream ended inside a frame.
    TruncatedFrame,
}

/// What one call of `advance` found.
#[derive(Debug, Clone, Copy, PartialEq, Eq, Structural)]
pub enum Advance {
    /// A whole frame was read and is now current.
    Frame,
    /// No line was left: the stream is over.
    EndOfStream,
}

/// The trajectory header: `_ atoms _ x y z ...`.
pub open spec fn header_spec(b: Seq<u8>) -> Result<(int, PeriodicBox), TrajectoryError> {
    let t = tokens(b);
    if t.len() < 6 {
        Err(TrajectoryError::MissingField)
    } else {
        match (int_field(t[1]), length_field(t[3]), length_field(t[4]), length_field(t[5])) {
            (Some(n), Some(x), Some(y), Some(z)) => {
                if n < 0 || n > usize::MAX {
                    Err(TrajectoryError::InvalidNumber)
                } else if x <= 0 || y <= 0 || z <= 0 {
                    Err(TrajectoryError::InvalidBox)
                } else {
                    Ok((n, PeriodicBox { x: x as i64, y: y as i64, z: z as i64 }))
                }
            },
            _ => Err(TrajectoryError::InvalidNumber),
        }
    }
}

/// A frame header: `_ step ...`.
pub open spec fn frame_header_spec(b: Seq<u8>) -> Result<int, TrajectoryError> {
    let t = tokens(b);
    if t.len() < 2 {
        Err(TrajectoryError::MissingField)
    } else {
        match int_field(t[1]) {
            Some(s) => Ok(s),
            None => Err(TrajectoryError::InvalidNumber),
        }
    }
}

/// An atom record: `_ x y z tag ...`.
pub open spec fn record_spec(b: Seq<u8>) -> Result<(Point, i64), TrajectoryError> {
    let t = tokens(b);
    if t.len() < 5 {
        Err(TrajectoryError::MissingField)
    } else {
        match (length_field(t[1]), length_field(t[2]), length_field(t[3]), int_field(t[4])) {
            (Some(x), Some(y), Some(z), Some(g)) => Ok(
                (Point { x: x as i64, y: y as i64, z: z as i64 }, g as i64),
            ),
            _ => Err(TrajectoryError::InvalidNumber),
        }
    }
}

/// Records read in order, stopping at the first that fails.
pub open spec fn records_spec(ls: Seq<Seq<u8>>) -> Result<Seq<(Point, i64)>, TrajectoryError>
    decreases ls.len(),
{
    if ls.len() == 0 {
        Ok(Seq::empty())
    } else {
        match records_spec(ls.drop_last()) {
            Err(e) => Err(e),
            Ok(rs) => match record_spec(ls.last()) {
                Err(e) => Err(e),
                Ok(r) => Ok(rs.push(r)),
            },
        }
    }
}

/// A frame of `n` atoms at the start of the non-empty `ls`: its step and records.
pub open spec fn frame_spec(ls: Seq<Seq<u8>>, n: int) -> Result<(int, Seq<(Point, i64)>), TrajectoryError> {
    if ls.len() < n + 1 {
        Err(TrajectoryError::TruncatedFrame)
    } else {
        match frame_header_spec(ls[0]) {
            Err(e) => Err(e),
            Ok(s) => match records_spec(ls.subrange(1, n + 1)) {
                Err(e) => Err(e),
                Ok(rs) => Ok((s, rs)),
            },
        }
    }
}

/// The bytes of each line.
pub open spec fn lines_bytes(ls: Seq<String>) -> Seq<Seq<u8>> {
    ls.map_values(|s: String| line_bytes(s@))
}

/// The points of `ps` whose tag is `t`, in order.
pub open spec fn select(ps: Seq<Point>, tags: Seq<i64>, t: i64) -> Seq<Point>
    decreases ps.len(),
{
    if ps.len() == 0 {
        Seq::empty()
    } else {
        let rest = select(ps.drop_last(), tags.take(ps.len() - 1), t);
        if tags[ps.len() - 1] == t {
            rest.push(ps.last())
        } else {
            rest
        }
    }
}

/// Reads the trajectory header.
pub fn parse_header(line: &str) -> (r: Result<(usize, PeriodicBox), TrajectoryError>)
    ensures
        match r {
            Ok((n, bx)) => header_spec(line_bytes(line@)) == Ok::<(int, PeriodicBox), TrajectoryError>(
                (n as int, bx),
            ),
            Err(e) => header_spec(line_bytes(line@)) == Err::<(int, PeriodicBox), TrajectoryError>(e),
        },
{
    let t = tokenize(line);
    if t.len() < 6 {
        return Err(TrajectoryError::MissingField);
    }
    let n = parse_int(&t[1]);
    let x = parse_fixed(&t[3]);
    let y = parse_fixed(&t[4]);
    let z = parse_fixed(&t[5]);
    match (n, x, y, z) {
        (Some(n), Some(x), Some(y), Some(z)) => {
            if n < 0 || n as u64 > usize::MAX as u64 {
                Err(TrajectoryError::InvalidNumber)
            } else if x <= 0 || y <= 0 || z <= 0 {
                Err(TrajectoryError::InvalidBox)
            } else {
                Ok((n as usize, PeriodicBox { x, y, z }))
            }
        },
        _ => Err(TrajectoryError::InvalidNumber),
    }
}

/// Reads a frame header, giving its time step.
pub fn parse_frame_header(line: &str) -> (r: Result<i64, TrajectoryError>)
    ensures
        match r {
            Ok(s) => frame_header_spec(line_bytes(line@)) == Ok::<int, TrajectoryError>(s as int),
            Err(e) => frame_header_spec(line_bytes(line@)) == Err::<int, TrajectoryError>(e),
        },
{
    let t = tokenize(line);
    if t.len() < 2 {
        return Err(TrajectoryError::MissingField);
    }
    match parse_int(&t[1]) {
        Some(s) => Ok(s),
        None => Err(TrajectoryError::InvalidNumber),
    }
}

/// Reads an atom record: its position and tag.
pub fn parse_record(line: &str) -> (r: Result<(Point, i64), TrajectoryError>)
    ensures
        r == record_spec(line_bytes(line@)),
        r is Ok ==> r->Ok_0.0.wf(),
{
    let t = tokenize(line);
    if t.len() < 5 {
        return Err(TrajectoryError::MissingField);
    }
    let x = parse_fixed(&t[1]);
    let y = parse_fixed(&t[2]);
    let z = parse_fixed(&t[3]);
    let g = parse_int(&t[4]);
    match (x, y, z, g) {
        (Some(x), Some(y), Some(z), Some(g)) => Ok((Point { x, y, z }, g)),
        _ => Err(TrajectoryError::InvalidNumber),
    }
}

/// The stream's fixed layout and its current frame, held as parallel columns
/// indexed by atom.
pub struct TrajectoryReader {
    /// Atoms per frame, fixed by the header.
    pub atom_count: usize,
    /// The cell, fixed by the header.
    pub cell: PeriodicBox,
    /// Time step of the current frame.
    pub time_step: i64,
    /// Position of each atom in the current frame.
    pub positions: Vec<Point>,
    /// Tag of each atom in the current frame.
    pub tags: Vec<i64>,
}

impl TrajectoryReader {
    pub open spec fn wf(&self) -> bool {
        &&& self.cell.wf()
        &&& self.positions@.len() == self.atom_count
        &&& self.tags@.len() == self.atom_count
        &&& forall|i: int| 0 <= i < self.positions@.len() ==> (#[trigger] self.positions@[i]).wf()
    }

    /// A reader positioned before the first frame, from the trajectory header:
    /// all atoms at the origin with tag 0, at step 0.
    pub fn new(header: &str) -> (r: Result<TrajectoryReader, TrajectoryError>)
        ensures
            match r {
                Ok(rd) => {
                    &&& rd.wf()
                    &&& header_spec(line_bytes(header@)) == Ok::<(int, PeriodicBox), TrajectoryError>(
                        (rd.atom_count as int, rd.cell),
                    )
                    &&& rd.time_step == 0
                    &&& forall|i: int|
                        0 <= i < rd.atom_count ==> rd.positions@[i] == (Point { x: 0, y: 0, z: 0 })
                            && rd.tags@[i] == 0
                },
                Err(e) => header_spec(line_bytes(header@)) == Err::<(int, PeriodicBox), TrajectoryError>(e),
            },
    {
        let (n, cell) = parse_header(header)?;
        let mut positions: Vec<Point> = Vec::new();
        let mut tags: Vec<i64> = Vec::new();
        let mut i: usize = 0;
        while i < n
            invariant
                i <= n,
                positions@.len() == i,
                tags@.len() == i,
                forall|j: int|
                    0 <= j < i ==> positions@[j] == (Point { x: 0, y: 0, z: 0 }) && tags@[j] == 0,
            decreases n - i,
        {
            positions.push(Point { x: 0, y: 0, z: 0 });
            tags.push(0);
            i = i + 1;
        }
        Ok(TrajectoryReader { atom_count: n, cell, time_step: 0, positions, tags })
    }

    /// Number of lines a frame takes: its header and one record per atom.
    pub fn frame_len(&self) -> (r: Option<usize>)
        ensures
            r is Some <==> self.atom_count + 1 <= usize::MAX,
            r is Some ==> r->0 == self.atom_count + 1,
    {
        self.atom_count.checked_add(1)
    }

    /// Reads the next frame from the start of `lines`, the lines that remain
    /// of the stream (lines past the frame are not looked at). With no line
    /// left the stream is over. Otherwise the frame must be whole and well
    /// formed; it then replaces the current frame. On any failure the reader
    /// is left as it was.
    pub fn advance(&mut self, lines: &[String]) -> (r: Result<Advance, TrajectoryError>)
        requires
            old(self).wf(),
        ensures
            final(self).wf(),
            match r {
                Ok(Advance::EndOfStream) => lines@.len() == 0 && *final(self) == *old(self),
                Ok(Advance::Frame) => {
                    &&& lines@.len() > 0
                    &&& frame_spec(lines_bytes(lines@), old(self).atom_count as int) is Ok
                    &&& final(self).time_step == frame_spec(
                        lines_bytes(lines@),
                        old(self).atom_count as int,
                    )->Ok_0.0
                    &&& final(self).positions@ == frame_spec(
                        lines_bytes(lines@),
                        old(self).atom_count as int,
                    )->Ok_0.1.map_values(|r: (Point, i64)| r.0)
                    &&& final(self).tags@ == frame_spec(
                        lines_bytes(lines@),
                        old(self).atom_count as int,
                    )->Ok_0.1.map_values(|r: (Point, i64)| r.1)
                    &&& final(self).atom_count == old(self).atom_count
                    &&& final(self).cell == old(self).cell
                },
                Err(e) => {
                    &&& lines@.len() > 0
                    &&& frame_spec(lines_bytes(lines@), old(self).atom_count as int) == Err::<
                        (int, Seq<(Point, i64)>),
                        TrajectoryError,
                    >(e)
                    &&& *final(self) == *old(self)
                },
            },
    {
        let ghost ls = lines_bytes(lines@);
        let ghost n = self.atom_count as int;
        if lines.len() == 0 {
            return Ok(Advance::EndOfStream);
        }
        if lines.len() - 1 < self.atom_count {
            return Err(TrajectoryError::TruncatedFrame);
        }
        let step = match parse_frame_header(lines[0].as_str()) {
            Ok(s) => s,
            Err(e) => return Err(e),
        };
        let ghost recs_lines = ls.subrange(1, n + 1);
        proof {
            assert(ls[0] == line_bytes(lines@[0]@));
        }
        let mut positions: Vec<Point> = Vec::new();
        let mut tags: Vec<i64> = Vec::new();
        let ghost mut recs: Seq<(Point, i64)> = Seq::empty();
        let mut i: usize = 0;
        proof {
            assert(recs_lines.take(0) =~= Seq::<Seq<u8>>::empty());
        }
        while i < self.atom_count
            invariant
                self.wf(),
                n == self.atom_count,
                lines@.len() >= n + 1,
                ls == lines_bytes(lines@),
                recs_lines == ls.subrange(1, n + 1),
                frame_header_spec(ls[0]) == Ok::<int, TrajectoryError>(step as int),
                i <= n,
                records_spec(recs_lines.take(i as int)) == Ok::<Seq<(Point, i64)>, TrajectoryError>(recs),
                recs.len() == i,
                positions@ == recs.map_values(|r: (Point, i64)| r.0),
                tags@ == recs.map_values(|r: (Point, i64)| r.1),
                forall|j: int| 0 <= j < i ==> (#[trigger] positions@[j]).wf(),
            decreases n - i,
        {
            proof {
                assert(recs_lines.take(i + 1).drop_last() =~= recs_lines.take(i as int));
                assert(recs_lines.take(i + 1).last() == line_bytes(lines@[i + 1]@));
            }
            match parse_record(lines[i + 1].as_str()) {
                Ok((p, g)) => {
                    positions.push(p);
                    tags.push(g);
                    proof {
                        recs = recs.push((p, g));
                        assert(positions@ =~= recs.map_values(|r: (Point, i64)| r.0));
                        assert(tags@ =~= recs.map_values(|r: (Point, i64)| r.1));
                    }
                },
                Err(e) => {
                    proof {
                        lemma_records_error_prefix(recs_lines, i as int + 1);
                    }
                    return Err(e);
                },
            }
            i = i + 1;
        }
        proof {
            assert(recs_lines.take(n) =~= recs_lines);
        }
        self.time_step = step;
        self.positions = positions;
        self.tags = tags;
        Ok(Advance::Frame)
    }

    /// The positions of the current frame's atoms tagged `tag`, in atom order.
    pub fn group(&self, tag: i64) -> (r: Vec<Point>)
        requires
            self.wf(),
        ensures
            r@ == select(self.positions@, self.tags@, tag),
            forall|i: int| 0 <= i < r@.len() ==> (#[trigger] r@[i]).wf(),
    {
        let mut r: Vec<Point> = Vec::new();
        let mut i: usize = 0;
        proof {
            assert(self.positions@.take(0) =~= Seq::<Point>::empty());
        }
        while i < self.positions.len()
            invariant
                self.wf(),
                i <= self.positions@.len(),
                r@ == select(self.positions@.take(i as int), self.tags@.take(i as int), tag),
                forall|j: int| 0 <= j < r@.len() ==> (#[trigger] r@[j]).wf(),
            decreases self.positions@.len() - i,
        {
            proof {
                let ps = self.positions@.take(i + 1);
                assert(ps.drop_last() =~= self.positions@.take(i as int));
                assert(self.tags@.take(i + 1).take(i as int) =~= self.tags@.take(i as int));
            }
            if self.tags[i] == tag {
                r.push(self.positions[i]);
            }
            i = i + 1;
        }
        proof {
            assert(self.positions@.take(self.positions@.len() as int) =~= self.positions@);
            assert(self.tags@.take(self.positions@.len() as int) =~= self.tags@);
        }
        r
    }

    /// The two groups of the current frame: atoms tagged `tag_a`, then atoms
    /// tagged `tag_b`; atoms with other tags are in neither.
    pub fn partition(&self, tag_a: i64, tag_b: i64) -> (r: (Vec<Point>, Vec<Point>))
        requires
            self.wf(),
        ensures
            r.0@ == select(self.positions@, self.tags@, tag_a),
            r.1@ == select(self.positions@, self.tags@, tag_b),
            forall|i: int| 0 <= i < r.0@.len() ==> (#[trigger] r.0@[i]).wf(),
            forall|i: int| 0 <= i < r.1@.len() ==> (#[trigger] r.1@[i]).wf(),
    {
        (self.group(tag_a), self.group(tag_b))
    }
}

proof fn lemma_records_error_prefix(ls: Seq<Seq<u8>>, m: int)
    requires
        0 <= m <= ls.len(),
        records_spec(ls.take(m)) is Err,
    ensures
        records_spec(ls) == records_spec(ls.take(m)),
    decreases ls.len() - m,
{
    if m == ls.len() {
        assert(ls.take(m) =~= ls);
    } else {
        assert(ls.take(m + 1).drop_last() =~= ls.take(m));
        lemma_records_error_prefix(ls, m + 1);
    }
}

} // verus!
