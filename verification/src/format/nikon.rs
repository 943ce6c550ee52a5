//! The delimited coordinate text format: one comma-separated record
//! per line, fields in the fixed order `name,north,east,elevation,code`.

use vstd::prelude::*;
use crate::geometry::Point;
use crate::geometry::PointV;
use crate::geometry::passes_filter;
use crate::numeric::contains_char;
use crate::numeric::parse_fixed_spec;
use crate::numeric::format_fixed_spec;
use crate::numeric::parse_fixed;
use crate::numeric::format_fixed;
use crate::numeric::lemma_parse_format;
use crate::numeric::lemma_format_no_comma;
use crate::text::trim_spec;
use crate::text::trim_chars;
use crate::text::is_space_char;
use crate::text::lemma_trimmed_ends;
use crate::text::lemma_trim_of_untouched;
use crate::text::chars_to_string;
use crate::text::string_to_chars;

verus! {

/// Fields of a line, split on every comma; always at least one field.
pub open spec fn split_fields(s: Seq<char>) -> Seq<Seq<char>>
    decreases s.len(),
{
    if s.len() == 0 {
        seq![s]
    } else if s[0] == ',' {
        seq![Seq::<char>::empty()] + split_fields(s.drop_first())
    } else {
        let rest = split_fields(s.drop_first());
        seq![seq![s[0]] + rest[0]] + rest.drop_first()
    }
}

pub open spec fn field_or_empty(fields: Seq<Seq<char>>, i: int) -> Seq<char> {
    if 0 <= i < fields.len() {
        fields[i]
    } else {
        Seq::<char>::empty()
    }
}

/// The point a single record line denotes: the line is trimmed, split
/// on commas, and the five leading fields are taken in order; missing
/// fields default to empty, and name and code are trimmed.
pub open spec fn nikon_point_spec(line: Seq<char>) -> PointV {
    let t = trim_spec(line);
    let fields = split_fields(t);
    PointV {
        east: parse_fixed_spec(field_or_empty(fields, 2)),
        north: parse_fixed_spec(field_or_empty(fields, 1)),
        elev: parse_fixed_spec(field_or_empty(fields, 3)),
        name: trim_spec(field_or_empty(fields, 0)),
        code: trim_spec(field_or_empty(fields, 4)),
    }
}

/// The points of a whole document: every line whose trimmed content is
/// non-empty is a record, in input order.
pub open spec fn nikon_parse_spec(lines: Seq<Seq<char>>) -> Seq<PointV>
    decreases lines.len(),
{
    if lines.len() == 0 {
        Seq::<PointV>::empty()
    } else {
        let rest = nikon_parse_spec(lines.drop_first());
        if trim_spec(lines[0]).len() == 0 {
            rest
        } else {
            seq![nikon_point_spec(lines[0])] + rest
        }
    }
}

/// The line a point is written as.
pub open spec fn nikon_line_spec(p: PointV) -> Seq<char> {
    p.name + seq![','] + format_fixed_spec(p.north) + seq![','] + format_fixed_spec(
        p.east,
    ) + seq![','] + format_fixed_spec(p.elev) + seq![','] + p.code
}

/// The lines of a written document: one per point whose code passes
/// the filter, in input order.
pub open spec fn nikon_render_spec(
    points: Seq<PointV>,
    filters: Seq<Seq<char>>,
) -> Seq<Seq<char>>
    decreases points.len(),
{
    if points.len() == 0 {
        Seq::<Seq<char>>::empty()
    } else {
        let rest = nikon_render_spec(points.drop_first(), filters);
        if passes_filter(filters, points[0].code) {
            seq![nikon_line_spec(points[0])] + rest
        } else {
            rest
        }
    }
}

/// A comma-free string is a single field.
proof fn lemma_split_whole(a: Seq<char>)
    requires
        !contains_char(a, ','),
    ensures
        split_fields(a) == seq![a],
    decreases a.len(),
{
    if a.len() > 0 {
        assert(a[0] != ',');
        assert(!contains_char(a.drop_first(), ',')) by {
            if contains_char(a.drop_first(), ',') {
                let i = choose|i: int|
                    0 <= i < a.drop_first().len() && a.drop_first()[i] == ',';
                assert(a[i + 1] == ',');
            }
        }
        lemma_split_whole(a.drop_first());
        assert(seq![a[0]] + a.drop_first() =~= a);
        assert(split_fields(a) =~= seq![a]);
    }
}

/// Splitting at the first comma peels off one comma-free field.
proof fn lemma_split_concat(a: Seq<char>, r: Seq<char>)
    requires
        !contains_char(a, ','),
    ensures
        split_fields(a + seq![','] + r) == seq![a] + split_fields(r),
    decreases a.len(),
{
    let s = a + seq![','] + r;
    if a.len() == 0 {
        assert(a =~= Seq::<char>::empty());
        assert(s =~= seq![','] + r);
        assert(s[0] == ',');
        assert(s.drop_first() =~= r);
        assert(split_fields(s) =~~= seq![a] + split_fields(r));
    } else {
        assert(s[0] == a[0]);
        assert(a[0] != ',');
        assert(!contains_char(a.drop_first(), ',')) by {
            if contains_char(a.drop_first(), ',') {
                let i = choose|i: int|
                    0 <= i < a.drop_first().len() && a.drop_first()[i] == ',';
                assert(a[i + 1] == ',');
            }
        }
        lemma_split_concat(a.drop_first(), r);
        assert(s.drop_first() =~= a.drop_first() + seq![','] + r);
        let rest = split_fields(s.drop_first());
        assert(rest == seq![a.drop_first()] + split_fields(r));
        assert(rest[0] == a.drop_first());
        assert(rest.drop_first() =~= split_fields(r));
        assert(seq![s[0]] + rest[0] =~= a);
        assert(split_fields(s) =~= seq![a] + split_fields(r));
    }
}

/// Split a character vector on commas.
pub fn split_commas(s: &Vec<char>) -> (r: Vec<Vec<char>>)
    ensures
        r.deep_view() == split_fields(s@),
{
    let n = s.len();
    let mut r: Vec<Vec<char>> = Vec::new();
    let mut p: usize = 0;
    let mut done = false;
    proof {
        assert(s@.skip(0) =~= s@);
        assert(r.deep_view() =~~= Seq::<Seq<char>>::empty());
    }
    while !done
        invariant
            p <= n,
            n == s@.len(),
            !done ==> split_fields(s@) == r.deep_view() + split_fields(
                s@.skip(p as int),
            ),
            done ==> r.deep_view() == split_fields(s@),
        decreases n - p, (if done {
            0int
        } else {
            1int
        }),
    {
        let mut j = p;
        while j < n && s[j] != ','
            invariant
                p <= j <= n,
                n == s@.len(),
                forall|t: int| p <= t < j ==> s@[t] != ',',
            decreases n - j,
        {
            j = j + 1;
        }
        let mut field: Vec<char> = Vec::new();
        let mut t = p;
        while t < j
            invariant
                p <= t <= j <= n,
                n == s@.len(),
                field@ =~= s@.subrange(p as int, t as int),
            decreases j - t,
        {
            field.push(s[t]);
            t = t + 1;
        }
        proof {
            assert(field@ =~= s@.subrange(p as int, j as int));
            assert(!contains_char(field@, ',')) by {
                if contains_char(field@, ',') {
                    let w = choose|w: int|
                        0 <= w < field@.len() && field@[w] == ',';
                    assert(s@[p + w] == ',');
                }
            }
        }
        let ghost old_deep = r.deep_view();
        if j < n {
            r.push(field);
            proof {
                assert(r.deep_view() =~~= old_deep.push(
                    s@.subrange(p as int, j as int),
                ));
                lemma_split_concat(s@.subrange(p as int, j as int), s@.skip(j + 1));
                assert(s@.skip(p as int) =~= s@.subrange(p as int, j as int) + seq![
                    ',',
                ] + s@.skip(j + 1));
                assert(old_deep.push(s@.subrange(p as int, j as int)) =~= old_deep
                    + seq![s@.subrange(p as int, j as int)]);
                assert(r.deep_view() + split_fields(s@.skip(j + 1))
                    =~= old_deep + split_fields(s@.skip(p as int)));
            }
            p = j + 1;
        } else {
            r.push(field);
            proof {
                assert(r.deep_view() =~~= old_deep.push(
                    s@.subrange(p as int, n as int),
                ));
                lemma_split_whole(s@.subrange(p as int, n as int));
                assert(s@.skip(p as int) =~= s@.subrange(p as int, n as int));
                assert(r.deep_view() =~= old_deep + split_fields(s@.skip(p as int)));
                assert(r.deep_view() == split_fields(s@));
            }
            done = true;
        }
    }
    r
}

/// Build the point a record line denotes.
fn parse_record(line: &Vec<char>) -> (p: Point)
    ensures
        p@ == nikon_point_spec(line@),
{
    let t = trim_chars(line);
    let fields = split_commas(&t);
    let name = if fields.len() > 0 {
        trim_chars(&fields[0])
    } else {
        Vec::<char>::new()
    };
    let north = if fields.len() > 1 {
        parse_fixed(&fields[1])
    } else {
        parse_fixed(&Vec::<char>::new())
    };
    let east = if fields.len() > 2 {
        parse_fixed(&fields[2])
    } else {
        parse_fixed(&Vec::<char>::new())
    };
    let elev = if fields.len() > 3 {
        parse_fixed(&fields[3])
    } else {
        parse_fixed(&Vec::<char>::new())
    };
    let code = if fields.len() > 4 {
        trim_chars(&fields[4])
    } else {
        Vec::<char>::new()
    };
    proof {
        let sfields = split_fields(trim_spec(line@));
        assert(fields.deep_view() == sfields);
        assert(fields@.len() == sfields.len());
        assert(forall|i: int|
            0 <= i < fields@.len() ==> fields@[i]@ == sfields[i]);
        assert(trim_spec(Seq::<char>::empty()) =~= Seq::<char>::empty());
        assert(parse_fixed_spec(Seq::<char>::empty()) == 0);
    }
    Point {
        east,
        north,
        elev,
        name: chars_to_string(&name),
        code: chars_to_string(&code),
    }
}

/// Reader for the delimited coordinate format.
pub struct NikonCoordReader {
    pub lines: Vec<String>,
}

impl NikonCoordReader {
    /// A reader over the lines of a document.
    pub fn new(lines: Vec<String>) -> (r: Self)
        ensures
            r.lines == lines,
    {
        Self { lines }
    }

    pub open spec fn lines_view(&self) -> Seq<Seq<char>> {
        self.lines.deep_view()
    }

    /// Read every record of the document, consuming the reader's
    /// remaining lines.
    pub fn parse(&mut self) -> (r: Vec<Point>)
        ensures
            r.deep_view() == nikon_parse_spec(old(self).lines_view()),
            final(self).lines_view().len() == 0,
    {
        let mut r: Vec<Point> = Vec::new();
        let n = self.lines.len();
        let mut i: usize = 0;
        let ghost lv = self.lines.deep_view();
        proof {
            assert(lv.skip(0) =~= lv);
            assert(r.deep_view() =~= Seq::<PointV>::empty());
        }
        while i < n
            invariant
                i <= n,
                n == self.lines@.len(),
                self.lines.deep_view() == lv,
                nikon_parse_spec(lv) == r.deep_view() + nikon_parse_spec(
                    lv.skip(i as int),
                ),
            decreases n - i,
        {
            let chars = string_to_chars(self.lines[i].as_str());
            let t = trim_chars(&chars);
            let ghost old_deep = r.deep_view();
            proof {
                assert(lv.skip(i as int).drop_first() =~= lv.skip(i + 1));
                assert(lv.skip(i as int)[0] == lv[i as int]);
                assert(lv[i as int] == self.lines@[i as int]@);
            }
            if t.len() > 0 {
                let p = parse_record(&chars);
                r.push(p);
                proof {
                    assert(r.deep_view() =~= old_deep.push(nikon_point_spec(
                        lv[i as int],
                    )));
                    assert(old_deep.push(nikon_point_spec(lv[i as int]))
                        =~= old_deep + seq![nikon_point_spec(lv[i as int])]);
                }
            }
            i = i + 1;
        }
        proof {
            assert(lv.skip(n as int) =~= Seq::<Seq<char>>::empty());
            assert(nikon_parse_spec(Seq::<Seq<char>>::empty())
                == Seq::<PointV>::empty());
            assert(r.deep_view() =~= nikon_parse_spec(lv));
        }
        self.lines = Vec::new();
        proof {
            assert(self.lines.deep_view() =~= Seq::<Seq<char>>::empty());
        }
        r
    }
}

/// Does the filter set admit this code?
pub fn filter_contains(filters: &Vec<String>, code: &String) -> (r: bool)
    ensures
        r == filters.deep_view().contains(code@),
{
    let n = filters.len();
    let mut i: usize = 0;
    while i < n
        invariant
            i <= n,
            n == filters@.len(),
            forall|j: int| 0 <= j < i ==> filters.deep_view()[j] != code@,
        decreases n - i,
    {
        if filters[i] == *code {
            assert(filters.deep_view()[i as int] == code@);
            return true;
        }
        i = i + 1;
    }
    false
}

/// Writer for the delimited coordinate format.
pub struct NikonCoordWriter {
    pub objects: Vec<Point>,
    pub layers: Vec<String>,
}

fn append_chars(out: &mut Vec<char>, s: &Vec<char>)
    ensures
        final(out)@ == old(out)@ + s@,
{
    let mut i: usize = 0;
    while i < s.len()
        invariant
            i <= s@.len(),
            out@ =~= old(out)@ + s@.take(i as int),
        decreases s@.len() - i,
    {
        out.push(s[i]);
        proof {
            assert(out@ =~= old(out)@ + s@.take(i + 1));
        }
        i = i + 1;
    }
    proof {
        assert(s@.take(s@.len() as int) =~= s@);
    }
}

/// Build the line a point is written as.
fn render_record(p: &Point) -> (r: Vec<char>)
    ensures
        r@ == nikon_line_spec(p@),
{
    let mut out: Vec<char> = Vec::new();
    let name = string_to_chars(p.name.as_str());
    append_chars(&mut out, &name);
    out.push(',');
    let north = format_fixed(p.north);
    append_chars(&mut out, &north);
    out.push(',');
    let east = format_fixed(p.east);
    append_chars(&mut out, &east);
    out.push(',');
    let elev = format_fixed(p.elev);
    append_chars(&mut out, &elev);
    out.push(',');
    let code = string_to_chars(p.code.as_str());
    append_chars(&mut out, &code);
    proof {
        assert(out@ =~= nikon_line_spec(p@));
    }
    out
}

impl NikonCoordWriter {
    /// A writer over a point sequence with an optional layer filter.
    pub fn new(objects: Vec<Point>, layers: Vec<String>) -> (r: Self)
        ensures
            r.objects == objects,
            r.layers == layers,
    {
        Self { objects, layers }
    }

    pub open spec fn objects_view(&self) -> Seq<PointV> {
        self.objects.deep_view()
    }

    pub open spec fn layers_view(&self) -> Seq<Seq<char>> {
        self.layers.deep_view()
    }

    /// The lines of the written document: one record per point whose
    /// code passes the layer filter; filtered points are dropped
    /// silently.
    pub fn render(&self) -> (r: Vec<String>)
        ensures
            r.deep_view() == nikon_render_spec(self.objects_view(), self.layers_view()),
    {
        let mut r: Vec<String> = Vec::new();
        let n = self.objects.len();
        let mut i: usize = 0;
        let ghost ov = self.objects.deep_view();
        let ghost fv = self.layers.deep_view();
        proof {
            assert(ov.skip(0) =~= ov);
            assert(r.deep_view() =~= Seq::<Seq<char>>::empty());
        }
        while i < n
            invariant
                i <= n,
                n == self.objects@.len(),
                ov == self.objects.deep_view(),
                fv == self.layers.deep_view(),
                nikon_render_spec(ov, fv) == r.deep_view() + nikon_render_spec(
                    ov.skip(i as int),
                    fv,
                ),
            decreases n - i,
        {
            proof {
                assert(ov.skip(i as int).drop_first() =~= ov.skip(i + 1));
                assert(ov.skip(i as int)[0] == ov[i as int]);
                assert(ov[i as int] == self.objects@[i as int]@);
            }
            let ghost old_deep = r.deep_view();
            let pass = if self.layers.len() == 0 {
                true
            } else {
                filter_contains(&self.layers, &self.objects[i].code)
            };
            if pass {
                let line = render_record(&self.objects[i]);
                r.push(chars_to_string(&line));
                proof {
                    assert(r.deep_view() =~= old_deep.push(nikon_line_spec(
                        ov[i as int],
                    )));
                    assert(old_deep.push(nikon_line_spec(ov[i as int]))
                        =~= old_deep + seq![nikon_line_spec(ov[i as int])]);
                }
            }
            i = i + 1;
        }
        proof {
            assert(ov.skip(n as int) =~= Seq::<PointV>::empty());
            assert(r.deep_view() =~= nikon_render_spec(ov, fv));
        }
        r
    }
}

/// A point survives the delimited round trip when its text fields are
/// trimmed and comma-free and its coordinates avoid the one
/// unrepresentable tick value.
pub open spec fn round_trip_safe(p: PointV) -> bool {
    &&& p.wf()
    &&& !contains_char(p.name, ',')
    &&& !contains_char(p.code, ',')
    &&& -(i64::MAX as int) <= p.east <= i64::MAX as int
    &&& -(i64::MAX as int) <= p.north <= i64::MAX as int
    &&& -(i64::MAX as int) <= p.elev <= i64::MAX as int
}

/// One record line reads back as the point it was written from.
proof fn lemma_record_round_trip(p: PointV)
    requires
        round_trip_safe(p),
    ensures
        trim_spec(nikon_line_spec(p)).len() > 0,
        nikon_point_spec(nikon_line_spec(p)) == p,
{
    let line = nikon_line_spec(p);
    let fn_ = format_fixed_spec(p.north);
    let fe = format_fixed_spec(p.east);
    let fz = format_fixed_spec(p.elev);
    lemma_format_no_comma(p.north);
    lemma_format_no_comma(p.east);
    lemma_format_no_comma(p.elev);
    // the line is already trimmed: it starts with the name or a comma
    // and ends with the code or a comma
    assert(line.len() > 0);
    assert(!is_space_char(line[0])) by {
        if p.name.len() > 0 {
            assert(line[0] == p.name[0]);
            lemma_trimmed_ends(p.name);
        } else {
            assert(line[0] == ',');
        }
    }
    assert(!is_space_char(line.last())) by {
        if p.code.len() > 0 {
            assert(line.last() == p.code[p.code.len() - 1]);
            lemma_trimmed_ends(p.code);
        } else {
            assert(line.last() == ',');
        }
    }
    lemma_trim_of_untouched(line);
    assert(trim_spec(line) == line);
    // the five fields come back apart
    let tail2 = fe + seq![','] + fz + seq![','] + p.code;
    let tail1 = fn_ + seq![','] + tail2;
    assert(line =~= p.name + seq![','] + tail1);
    lemma_split_concat(p.name, tail1);
    lemma_split_concat(fn_, tail2);
    assert(tail2 =~= fe + seq![','] + (fz + seq![','] + p.code));
    lemma_split_concat(fe, fz + seq![','] + p.code);
    lemma_split_concat(fz, p.code);
    lemma_split_whole(p.code);
    let fields = split_fields(line);
    assert(fields =~= seq![p.name, fn_, fe, fz, p.code]);
    assert(fields.len() == 5);
    assert(field_or_empty(fields, 0) == p.name);
    assert(field_or_empty(fields, 1) == fn_);
    assert(field_or_empty(fields, 2) == fe);
    assert(field_or_empty(fields, 3) == fz);
    assert(field_or_empty(fields, 4) == p.code);
    lemma_parse_format(p.north);
    lemma_parse_format(p.east);
    lemma_parse_format(p.elev);
    assert(trim_spec(p.name) == p.name);
    assert(trim_spec(p.code) == p.code);
}

/// The delimited round trip: writing points and reading the text back
/// yields the same point sequence, provided the filter discarded
/// nothing and each point's text fields are trimmed and comma-free.
pub proof fn lemma_delimited_round_trip(points: Seq<PointV>, filters: Seq<Seq<char>>)
    requires
        forall|i: int| 0 <= i < points.len() ==> round_trip_safe(#[trigger] points[i]),
        forall|i: int|
            0 <= i < points.len() ==> passes_filter(filters, (#[trigger] points[i]).code),
    ensures
        nikon_parse_spec(nikon_render_spec(points, filters)) == points,
    decreases points.len(),
{
    if points.len() == 0 {
    } else {
        let p = points[0];
        let rest = points.drop_first();
        assert(forall|i: int|
            0 <= i < rest.len() ==> rest[i] == points[i + 1]);
        lemma_delimited_round_trip(rest, filters);
        lemma_record_round_trip(p);
        let lines = nikon_render_spec(points, filters);
        assert(passes_filter(filters, p.code));
        assert(lines == seq![nikon_line_spec(p)] + nikon_render_spec(rest, filters));
        assert(lines.len() > 0);
        assert(lines[0] == nikon_line_spec(p));
        assert(lines.drop_first() =~= nikon_render_spec(rest, filters));
        assert(trim_spec(lines[0]).len() > 0);
        assert(nikon_parse_spec(lines) == seq![nikon_point_spec(lines[0])]
            + nikon_parse_spec(lines.drop_first()));
        assert(seq![p] + rest =~= points);
    }
}

} // verus!
