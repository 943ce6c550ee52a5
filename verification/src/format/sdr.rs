//! The fixed-width instrument export format.
//!
//! A document begins with arbitrary lines; the first line starting with
//! one of two nine-character magic prefixes is the header, and selects
//! one of two incompatible column layouts.  After the header, every
//! line whose trimmed content starts with the record marker is a point
//! record; all other lines are ignored.

use vstd::prelude::*;
use crate::convert::ConvertError;
use crate::geometry::Point;
use crate::geometry::PointV;
use crate::numeric::parse_fixed;
use crate::numeric::parse_fixed_spec;
use crate::text::chars_start_with;
use crate::text::chars_to_string;
use crate::text::starts_with_spec;
use crate::text::string_to_chars;
use crate::text::trim_chars;
use crate::text::trim_spec;

verus! {

/// The two column layouts of the format.
#[derive(Clone, Copy, PartialEq, Eq, Structural, Debug)]
pub enum SdrVersion {
    Sdr33,
    Sdr2x,
}

pub open spec fn is_sdr33_header(line: Seq<char>) -> bool {
    starts_with_spec(line, "00NMSDR33"@)
}

pub open spec fn is_sdr2x_header(line: Seq<char>) -> bool {
    starts_with_spec(line, "00NMSDR20"@)
}

pub open spec fn is_header(line: Seq<char>) -> bool {
    is_sdr33_header(line) || is_sdr2x_header(line)
}

pub open spec fn header_version(line: Seq<char>) -> SdrVersion {
    if is_sdr33_header(line) {
        SdrVersion::Sdr33
    } else {
        SdrVersion::Sdr2x
    }
}

/// The version and index of the first header line, if any.
pub open spec fn detect_spec(lines: Seq<Seq<char>>) -> Option<(SdrVersion, int)>
    decreases lines.len(),
{
    if lines.len() == 0 {
        None
    } else if is_header(lines[0]) {
        Some((header_version(lines[0]), 0))
    } else {
        match detect_spec(lines.drop_first()) {
            None => None,
            Some((v, i)) => Some((v, i + 1)),
        }
    }
}

/// A column slice by fixed offsets: all or nothing, as the instrument
/// writes complete columns — a record too short for the whole column
/// yields the empty field.
pub open spec fn slice_exact(l: Seq<char>, a: int, b: int) -> Seq<char> {
    if 0 <= a <= b <= l.len() {
        l.subrange(a, b)
    } else {
        Seq::<char>::empty()
    }
}

/// The column running from a fixed offset to the end of the record.
pub open spec fn slice_tail(l: Seq<char>, a: int) -> Seq<char> {
    if 0 <= a <= l.len() {
        l.subrange(a, l.len() as int)
    } else {
        Seq::<char>::empty()
    }
}

/// A point record: its trimmed line starts with the record marker.
pub open spec fn is_record_line(t: Seq<char>) -> bool {
    starts_with_spec(t, "08KI"@)
}

/// The point a record line denotes under the given column layout.
/// Numeric columns are trimmed and parsed leniently; name and code are
/// trimmed.
pub open spec fn record_spec(t: Seq<char>, v: SdrVersion) -> PointV {
    match v {
        SdrVersion::Sdr2x => PointV {
            east: parse_fixed_spec(trim_spec(slice_exact(t, 18, 28))),
            north: parse_fixed_spec(trim_spec(slice_exact(t, 8, 18))),
            elev: parse_fixed_spec(trim_spec(slice_exact(t, 28, 38))),
            name: trim_spec(slice_exact(t, 4, 8)),
            code: trim_spec(slice_tail(t, 38)),
        },
        SdrVersion::Sdr33 => PointV {
            east: parse_fixed_spec(trim_spec(slice_exact(t, 36, 52))),
            north: parse_fixed_spec(trim_spec(slice_exact(t, 20, 36))),
            elev: parse_fixed_spec(trim_spec(slice_exact(t, 52, 68))),
            name: trim_spec(slice_exact(t, 4, 20)),
            code: trim_spec(slice_tail(t, 68)),
        },
    }
}

/// The points of the lines after the header, in input order.
pub open spec fn sdr_parse_spec(lines: Seq<Seq<char>>, v: SdrVersion) -> Seq<PointV>
    decreases lines.len(),
{
    if lines.len() == 0 {
        Seq::<PointV>::empty()
    } else {
        let rest = sdr_parse_spec(lines.drop_first(), v);
        let t = trim_spec(lines[0]);
        if is_record_line(t) {
            seq![record_spec(t, v)] + rest
        } else {
            rest
        }
    }
}

/// The two magic prefixes differ, so no line is a header of both
/// layouts.
pub proof fn lemma_headers_exclusive(line: Seq<char>)
    ensures
        !(is_sdr33_header(line) && is_sdr2x_header(line)),
{
    reveal_strlit("00NMSDR33");
    reveal_strlit("00NMSDR20");
    if is_sdr33_header(line) && is_sdr2x_header(line) {
        assert(line.take(9)[7] == "00NMSDR33"@[7]);
        assert(line.take(9)[7] == "00NMSDR20"@[7]);
        assert("00NMSDR33"@[7] == '3');
        assert("00NMSDR20"@[7] == '2');
        assert(false);
    }
}

/// The header scan selects the layout of the first header line — and
/// never the other layout, since no line matches both magics.
pub proof fn lemma_mode_selection(lines: Seq<Seq<char>>, i: int)
    requires
        0 <= i < lines.len(),
        is_header(lines[i]),
        forall|j: int| 0 <= j < i ==> !is_header(#[trigger] lines[j]),
    ensures
        detect_spec(lines) == Some((header_version(lines[i]), i)),
        is_sdr33_header(lines[i]) ==> detect_spec(lines) == Some((
            SdrVersion::Sdr33,
            i,
        )),
        is_sdr2x_header(lines[i]) ==> detect_spec(lines) == Some((
            SdrVersion::Sdr2x,
            i,
        )),
    decreases i,
{
    lemma_headers_exclusive(lines[i]);
    if i == 0 {
    } else {
        assert(!is_header(lines[0]));
        assert(forall|j: int|
            0 <= j < i - 1 ==> !is_header(#[trigger] lines.drop_first()[j]));
        assert(lines.drop_first()[i - 1] == lines[i]);
        lemma_mode_selection(lines.drop_first(), i - 1);
    }
}

fn slice_field(l: &Vec<char>, a: usize, b: usize) -> (r: Vec<char>)
    ensures
        r@ == slice_exact(l@, a as int, b as int),
{
    let mut r: Vec<char> = Vec::new();
    if a <= b && b <= l.len() {
        let mut i = a;
        while i < b
            invariant
                a <= i <= b <= l@.len(),
                r@ =~= l@.subrange(a as int, i as int),
            decreases b - i,
        {
            r.push(l[i]);
            i = i + 1;
        }
        proof {
            assert(r@ =~= l@.subrange(a as int, b as int));
        }
    } else {
        proof {
            assert(r@ =~= Seq::<char>::empty());
        }
    }
    r
}

fn tail_field(l: &Vec<char>, a: usize) -> (r: Vec<char>)
    ensures
        r@ == slice_tail(l@, a as int),
{
    slice_field(l, a, if a <= l.len() {
        l.len()
    } else {
        a
    })
}

/// Build the point of one record line under the given layout.
fn parse_record(t: &Vec<char>, version: SdrVersion) -> (p: Point)
    ensures
        p@ == record_spec(t@, version),
{
    match version {
        SdrVersion::Sdr2x => {
            let name = trim_chars(&slice_field(t, 4, 8));
            let north = parse_fixed(&trim_chars(&slice_field(t, 8, 18)));
            let east = parse_fixed(&trim_chars(&slice_field(t, 18, 28)));
            let elev = parse_fixed(&trim_chars(&slice_field(t, 28, 38)));
            let code = trim_chars(&tail_field(t, 38));
            Point {
                east,
                north,
                elev,
                name: chars_to_string(&name),
                code: chars_to_string(&code),
            }
        },
        SdrVersion::Sdr33 => {
            let name = trim_chars(&slice_field(t, 4, 20));
            let north = parse_fixed(&trim_chars(&slice_field(t, 20, 36)));
            let east = parse_fixed(&trim_chars(&slice_field(t, 36, 52)));
            let elev = parse_fixed(&trim_chars(&slice_field(t, 52, 68)));
            let code = trim_chars(&tail_field(t, 68));
            Point {
                east,
                north,
                elev,
                name: chars_to_string(&name),
                code: chars_to_string(&code),
            }
        },
    }
}

/// Reader for the fixed-width instrument export format.
pub struct SdrReader {
    pub version: SdrVersion,
    pub lines: Vec<String>,
    pub pos: usize,
}

impl SdrReader {
    pub open spec fn wf(&self) -> bool {
        self.pos <= self.lines@.len()
    }

    pub open spec fn version_view(&self) -> SdrVersion {
        self.version
    }

    /// The lines not yet consumed.
    pub open spec fn remaining(&self) -> Seq<Seq<char>> {
        self.lines.deep_view().skip(self.pos as int)
    }

    /// Scan for a header line and fix the column layout from it; a
    /// document with no header line is rejected outright.
    pub fn new(lines: Vec<String>) -> (r: Result<Self, ConvertError>)
        ensures
            match r {
                Ok(rd) => {
                    &&& rd.wf()
                    &&& detect_spec(lines.deep_view()) matches Some((v, i))
                        && rd.version == v && rd.pos == i + 1
                    &&& rd.lines == lines
                },
                Err(e) => {
                    &&& detect_spec(lines.deep_view()) is None
                    &&& e == ConvertError::FormatDetection
                },
            },
    {
        let n = lines.len();
        let mut i: usize = 0;
        let ghost lv = lines.deep_view();
        proof {
            assert(lv.skip(0) =~= lv);
        }
        while i < n
            invariant
                i <= n,
                n == lines@.len(),
                lv == lines.deep_view(),
                detect_spec(lv) == match detect_spec(lv.skip(i as int)) {
                    None => None::<(SdrVersion, int)>,
                    Some((v, k)) => Some((v, k + i)),
                },
            decreases n - i,
        {
            let chars = string_to_chars(lines[i].as_str());
            proof {
                assert(lv.skip(i as int)[0] == lv[i as int]);
                assert(lv[i as int] == lines@[i as int]@);
                assert(lv.skip(i as int).drop_first() =~= lv.skip(i + 1));
            }
            if chars_start_with(&chars, "00NMSDR33") {
                return Ok(SdrReader {
                    version: SdrVersion::Sdr33,
                    lines,
                    pos: i + 1,
                });
            }
            if chars_start_with(&chars, "00NMSDR20") {
                proof {
                    lemma_headers_exclusive(lv[i as int]);
                }
                return Ok(SdrReader {
                    version: SdrVersion::Sdr2x,
                    lines,
                    pos: i + 1,
                });
            }
            i = i + 1;
        }
        proof {
            assert(lv.skip(n as int) =~= Seq::<Seq<char>>::empty());
        }
        Err(ConvertError::FormatDetection)
    }

    /// Read every record after the header, consuming the reader's
    /// remaining lines.
    pub fn parse(&mut self) -> (r: Vec<Point>)
        requires
            old(self).wf(),
        ensures
            r.deep_view() == sdr_parse_spec(old(self).remaining(), old(self).version),
            final(self).remaining().len() == 0,
            final(self).version == old(self).version,
            final(self).wf(),
    {
        let mut r: Vec<Point> = Vec::new();
        let n = self.lines.len();
        let ghost lv = self.remaining();
        let ghost p0 = self.pos as int;
        let mut i: usize = self.pos;
        proof {
            assert(lv.skip(0) =~= lv);
            assert(r.deep_view() =~= Seq::<PointV>::empty());
        }
        while i < n
            invariant
                p0 <= i <= n,
                n == self.lines@.len(),
                lv == self.lines.deep_view().skip(p0),
                self == old(self),
                p0 == old(self).pos,
                sdr_parse_spec(lv, self.version) == r.deep_view() + sdr_parse_spec(
                    lv.skip(i - p0),
                    self.version,
                ),
            decreases n - i,
        {
            let chars = string_to_chars(self.lines[i].as_str());
            let t = trim_chars(&chars);
            let ghost old_deep = r.deep_view();
            proof {
                assert(lv.skip(i - p0)[0] == lv[i - p0]);
                assert(lv[i - p0] == self.lines@[i as int]@);
                assert(lv.skip(i - p0).drop_first() =~= lv.skip(i + 1 - p0));
            }
            if chars_start_with(&t, "08KI") {
                let p = parse_record(&t, self.version);
                r.push(p);
                proof {
                    let pv = record_spec(trim_spec(lv[i - p0]), self.version);
                    assert(r.deep_view() =~= old_deep.push(pv));
                    assert(old_deep.push(pv) =~= old_deep + seq![pv]);
                }
            }
            i = i + 1;
        }
        proof {
            assert(lv.skip(n - p0) =~= Seq::<Seq<char>>::empty());
            assert(r.deep_view() =~= sdr_parse_spec(lv, self.version));
        }
        self.pos = n;
        proof {
            assert(self.lines.deep_view().skip(n as int)
                =~= Seq::<Seq<char>>::empty());
        }
        r
    }
}

} // verus!
