//! A published snapshot of generated terrain, and the parser for river
//! records in CSV form. Reading the bytes from disk is the caller's concern;
//! turning bytes into records is pure logic and lives here.

use vstd::prelude::*;
use crate::mesh::Mesh;

verus! {

/// One river segment record: source cell, downhill neighbour, flow count.
#[derive(Clone, Copy, Debug, PartialEq, Eq, Structural)]
pub struct RiverRecord {
    pub x: u32,
    pub y: u32,
    pub nx: u32,
    pub ny: u32,
    pub flow: u32,
}

/// An immutable world snapshot: mesh, sea level, river segments.
#[derive(Clone, Debug)]
pub struct World {
    pub mesh: Mesh,
    pub sea_level: i64,
    pub rivers: Vec<RiverRecord>,
}

impl World {
    pub fn new(mesh: Mesh, sea_level: i64, rivers: Vec<RiverRecord>) -> (w: World)
        ensures
            w.mesh == mesh,
            w.sea_level == sea_level,
            w.rivers == rivers,
    {
        World { mesh, sea_level, rivers }
    }
}

/// Parser state: the value of the digit run being read, the fields of the
/// line being read, and the records of the lines already read. `ok` is
/// cleared, for good, by any input that is not in the record grammar.
pub struct ScanState {
    pub ok: bool,
    pub field: int,
    pub in_field: bool,
    pub fields: Seq<u32>,
    pub records: Seq<RiverRecord>,
}

pub open spec fn scan_init() -> ScanState {
    ScanState { ok: true, field: 0, in_field: false, fields: Seq::empty(), records: Seq::empty() }
}

pub open spec fn scan_error(st: ScanState) -> ScanState {
    ScanState { ok: false, field: 0, in_field: false, fields: Seq::empty(), records: st.records }
}

/// One byte of input: a digit extends the current field, a comma closes a
/// field, a newline closes a line of exactly five fields (or skips an empty
/// line); anything else, an empty field, an oversized value or a short or
/// long line is an error.
pub open spec fn scan_step(st: ScanState, b: u8) -> ScanState {
    if !st.ok {
        st
    } else if 48 <= b <= 57 {
        let v = st.field * 10 + (b - 48);
        if v > u32::MAX {
            scan_error(st)
        } else {
            ScanState { field: v, in_field: true, ..st }
        }
    } else if b == 44 {
        if !st.in_field {
            scan_error(st)
        } else {
            ScanState {
                field: 0,
                in_field: false,
                fields: st.fields.push(st.field as u32),
                ..st
            }
        }
    } else if b == 10 {
        let fs = if st.in_field {
            st.fields.push(st.field as u32)
        } else {
            st.fields
        };
        if fs.len() == 5 {
            ScanState {
                field: 0,
                in_field: false,
                fields: Seq::empty(),
                records: st.records.push(
                    RiverRecord {
                        x: fs[0],
                        y: fs[1],
                        nx: fs[2],
                        ny: fs[3],
                        flow: fs[4],
                    },
                ),
                ok: true,
            }
        } else if fs.len() == 0 {
            st
        } else {
            scan_error(st)
        }
    } else {
        scan_error(st)
    }
}

/// The state after scanning the first `n` bytes of `s`.
pub open spec fn scan(s: Seq<u8>, n: int) -> ScanState
    decreases n,
{
    if n <= 0 {
        scan_init()
    } else {
        scan_step(scan(s, n - 1), s[n - 1])
    }
}

/// What parsing a whole river CSV yields: the records of its lines, or
/// nothing when any line falls outside the grammar. A final unterminated
/// line counts as if it were newline-terminated.
pub open spec fn parse_rivers_spec(s: Seq<u8>) -> Option<Seq<RiverRecord>> {
    let fin = scan_step(scan(s, s.len() as int), 10);
    if fin.ok {
        Some(fin.records)
    } else {
        None
    }
}

/// Executable mirror of the scanner.
struct Parser {
    ok: bool,
    field: u64,
    in_field: bool,
    fields: Vec<u32>,
    records: Vec<RiverRecord>,
}

impl Parser {
    spec fn view_spec(self) -> ScanState {
        ScanState {
            ok: self.ok,
            field: self.field as int,
            in_field: self.in_field,
            fields: self.fields@,
            records: self.records@,
        }
    }

    spec fn wf(self) -> bool {
        self.ok ==> self.field <= u32::MAX as u64
    }

    fn new() -> (p: Parser)
        ensures
            p.wf(),
            p.view_spec() == scan_init(),
    {
        let p = Parser { ok: true, field: 0, in_field: false, fields: Vec::new(), records: Vec::new() };
        proof {
            assert(p.view_spec().fields =~= scan_init().fields);
            assert(p.view_spec().records =~= scan_init().records);
        }
        p
    }

    fn step(&mut self, b: u8)
        requires
            old(self).wf(),
        ensures
            final(self).wf(),
            final(self).view_spec() == scan_step(old(self).view_spec(), b),
    {
        if !self.ok {
            return ;
        }
        if 48 <= b && b <= 57 {
            let v = self.field * 10 + (b - 48) as u64;
            if v > u32::MAX as u64 {
                self.error();
            } else {
                self.field = v;
                self.in_field = true;
            }
        } else if b == 44 {
            if !self.in_field {
                self.error();
            } else {
                self.fields.push(self.field as u32);
                self.field = 0;
                self.in_field = false;
            }
        } else if b == 10 {
            if self.in_field {
                self.fields.push(self.field as u32);
                self.field = 0;
                self.in_field = false;
            }
            if self.fields.len() == 5 {
                self.field = 0;
                let record = RiverRecord {
                    x: self.fields[0],
                    y: self.fields[1],
                    nx: self.fields[2],
                    ny: self.fields[3],
                    flow: self.fields[4],
                };
                self.records.push(record);
                self.fields = Vec::new();
                proof {
                    assert(self.fields@ =~= Seq::<u32>::empty());
                }
            } else if self.fields.len() == 0 {
            } else {
                self.error();
            }
        } else {
            self.error();
        }
    }

    fn error(&mut self)
        ensures
            final(self).wf(),
            final(self).view_spec() == scan_error(old(self).view_spec()),
    {
        self.ok = false;
        self.field = 0;
        self.in_field = false;
        self.fields = Vec::new();
        proof {
            assert(self.fields@ =~= Seq::<u32>::empty());
        }
    }
}

/// Parses river records from CSV bytes: one line per segment, five
/// comma-separated unsigned decimal fields `x,y,nx,ny,flow`; empty lines are
/// skipped. Malformed input is reported, never silently defaulted.
pub fn parse_rivers(text: &Vec<u8>) -> (r: Option<Vec<RiverRecord>>)
    ensures
        r.is_some() == parse_rivers_spec(text@).is_some(),
        r.is_some() ==> r.unwrap()@ == parse_rivers_spec(text@).unwrap(),
{
    let mut p = Parser::new();
    let mut i: usize = 0;
    while i < text.len()
        invariant
            i <= text@.len(),
            p.wf(),
            p.view_spec() == scan(text@, i as int),
        decreases text@.len() - i,
    {
        p.step(text[i]);
        i = i + 1;
    }
    p.step(10);
    if p.ok {
        Some(p.records)
    } else {
        None
    }
}

} // verus!
