//! The conversion orchestrator: selects the reader and writer for a
//! source and destination format, resolves the output path, and drives
//! one read-then-write pass over plain in-memory documents.

use vstd::prelude::*;
use crate::format::DxfReader;
use crate::format::DxfWriter;
use crate::format::InFormat;
use crate::format::NikonCoordReader;
use crate::format::NikonCoordWriter;
use crate::format::OutFormat;
use crate::format::SdrReader;
use crate::format::dxf::Drawing;
use crate::format::dxf::DrawingV;
use crate::format::dxf::DxfEntity;
use crate::format::dxf::DxfEntityV;
use crate::format::dxf::drawing_spec;
use crate::format::dxf::dxf_parse_spec;
use crate::format::nikon::nikon_parse_spec;
use crate::format::nikon::nikon_render_spec;
use crate::format::sdr::detect_spec;
use crate::format::sdr::sdr_parse_spec;
use crate::geometry::PointV;
use crate::text::chars_to_string;
use crate::text::string_to_chars;
use crate::text::to_upper_chars;
use crate::text::upper_spec;

verus! {

/// Why a conversion failed.
#[derive(Clone, Copy, PartialEq, Eq, Structural, Debug)]
pub enum ConvertError {
    /// No recognizable header line was found in a fixed-width document.
    FormatDetection,
}

impl ConvertError {
    /// A description of the failure.
    pub fn message(&self) -> (r: String)
        ensures
            r@.len() > 0,
    {
        match self {
            ConvertError::FormatDetection => {
                let m = String::from_str(
                    "failed to detect the fixed-width format version: no header found",
                );
                proof {
                    reveal_strlit(
                        "failed to detect the fixed-width format version: no header found",
                    );
                }
                m
            },
        }
    }
}

/// What one conversion is asked to do.  The shell validates and
/// supplies these: the format tags, the raw layer filters, the input
/// path, and the output path when one was given.
pub struct ConvertOptions {
    pub from: InFormat,
    pub to: OutFormat,
    pub layers: Vec<String>,
    pub output: Option<String>,
    pub input: String,
}

/// An input document in memory: the lines of a text format, or the
/// entity list of a drawing.
pub enum InputDoc {
    Lines(Vec<String>),
    Entities(Vec<DxfEntity>),
}

pub ghost enum InputDocV {
    Lines(Seq<Seq<char>>),
    Entities(Seq<DxfEntityV>),
}

impl View for InputDoc {
    type V = InputDocV;

    open spec fn view(&self) -> InputDocV {
        match self {
            InputDoc::Lines(lines) => InputDocV::Lines(lines.deep_view()),
            InputDoc::Entities(es) => InputDocV::Entities(es.deep_view()),
        }
    }
}

/// An output document in memory: the lines of a text format, or a
/// drawing document.
pub enum OutputDoc {
    Lines(Vec<String>),
    Drawing(Drawing),
}

pub ghost enum OutputDocV {
    Lines(Seq<Seq<char>>),
    Drawing(DrawingV),
}

impl View for OutputDoc {
    type V = OutputDocV;

    open spec fn view(&self) -> OutputDocV {
        match self {
            OutputDoc::Lines(lines) => OutputDocV::Lines(lines.deep_view()),
            OutputDoc::Drawing(d) => OutputDocV::Drawing(d@),
        }
    }
}

/// A finished conversion: the resolved output path and the document to
/// write there.
pub struct Conversion {
    pub output_path: String,
    pub doc: OutputDoc,
}

/// How one run ended: a conversion, or the informational no-op for a
/// same-format request.
pub enum RunResult {
    Converted(Conversion),
    SameFormat,
}

/// A conversion whose source and destination formats coincide is a
/// no-op, not an error.
pub open spec fn same_format(from: InFormat, to: OutFormat) -> bool {
    ||| (from == InFormat::Dxf && to == OutFormat::Dxf)
    ||| (from == InFormat::NikonCoord && to == OutFormat::NikonCoord)
}

/// Index of the last path separator, or -1 when there is none.
pub open spec fn last_slash(path: Seq<char>) -> int
    decreases path.len(),
{
    if path.len() == 0 {
        -1
    } else if path.last() == '/' {
        path.len() - 1
    } else {
        last_slash(path.drop_last())
    }
}

/// Index of the last extension separator: the last `.` strictly after
/// the first character of the file name, or -1 when there is none (a
/// leading dot names a hidden file, not an extension).
pub open spec fn last_ext_dot(path: Seq<char>, name_start: int) -> int
    decreases path.len(),
{
    if path.len() == 0 {
        -1
    } else if path.len() - 1 > name_start && path.last() == '.' {
        path.len() - 1
    } else {
        last_ext_dot(path.drop_last(), name_start)
    }
}

/// The default output path: the input path with its extension replaced
/// by the destination format's, or with the extension appended when the
/// file name has none.
pub open spec fn default_output_spec(path: Seq<char>, ext: Seq<char>) -> Seq<char> {
    let k = last_slash(path);
    let d = last_ext_dot(path, k + 1);
    if d >= 0 {
        path.take(d) + seq!['.'] + ext
    } else {
        path + seq!['.'] + ext
    }
}

/// The filter set as the writers see it: every entry upper-cased once.
pub open spec fn upper_filters(layers: Seq<Seq<char>>) -> Seq<Seq<char>> {
    layers.map_values(|s: Seq<char>| upper_spec(s))
}

/// The points the selected reader yields, or the error it stops with.
pub open spec fn read_points(from: InFormat, input: InputDocV) -> Result<
    Seq<PointV>,
    ConvertError,
> {
    match (from, input) {
        (InFormat::Dxf, InputDocV::Entities(es)) => Ok(dxf_parse_spec(es)),
        (InFormat::NikonCoord, InputDocV::Lines(lines)) => Ok(nikon_parse_spec(lines)),
        (InFormat::Sdr, InputDocV::Lines(lines)) => match detect_spec(lines) {
            None => Err(ConvertError::FormatDetection),
            Some((v, i)) => Ok(sdr_parse_spec(lines.skip(i + 1), v)),
        },
        // a document of the wrong shape never reaches a reader
        _ => Err(ConvertError::FormatDetection),
    }
}

/// The document the selected writer produces.
pub open spec fn write_doc(
    to: OutFormat,
    points: Seq<PointV>,
    filters: Seq<Seq<char>>,
) -> OutputDocV {
    match to {
        OutFormat::Dxf => OutputDocV::Drawing(drawing_spec(points, filters)),
        OutFormat::NikonCoord => OutputDocV::Lines(nikon_render_spec(points, filters)),
    }
}

proof fn lemma_ext_dot_none(s: Seq<char>, ns: int)
    requires
        s.len() <= ns + 1,
    ensures
        last_ext_dot(s, ns) == -1,
    decreases s.len(),
{
    if s.len() > 0 {
        lemma_ext_dot_none(s.drop_last(), ns);
    }
}

/// Compute the default output path for an input path.
pub fn default_output_path(input: &str, ext: &String) -> (r: String)
    ensures
        r@ == default_output_spec(input@, ext@),
{
    let chars = string_to_chars(input);
    let n = chars.len();
    let mut j = n;
    proof {
        assert(input@.take(n as int) =~= input@);
    }
    while j > 0 && chars[j - 1] != '/'
        invariant
            j <= n,
            n == chars@.len(),
            chars@ == input@,
            last_slash(input@) == last_slash(input@.take(j as int)),
        decreases j,
    {
        proof {
            assert(input@.take(j as int).drop_last() =~= input@.take(j - 1));
            assert(input@.take(j as int).last() == input@[j - 1]);
        }
        j = j - 1;
    }
    proof {
        if j > 0 {
            assert(input@.take(j as int).last() == input@[j - 1]);
        } else {
            assert(input@.take(0) =~= Seq::<char>::empty());
        }
    }
    let name_start: usize = j;
    proof {
        assert(last_slash(input@) == name_start as int - 1);
    }
    let mut d = n;
    let mut dot: usize = 0;
    let mut found = false;
    while d > name_start && d - 1 > name_start && !found
        invariant
            name_start <= n,
            n == chars@.len(),
            chars@ == input@,
            d <= n,
            !found ==> last_ext_dot(input@, name_start as int) == last_ext_dot(
                input@.take(d as int),
                name_start as int,
            ),
            found ==> dot < n && dot as int == last_ext_dot(
                input@,
                name_start as int,
            ),
        decreases d, (if found {
            0int
        } else {
            1int
        }),
    {
        proof {
            assert(input@.take(d as int).drop_last() =~= input@.take(d - 1));
            assert(input@.take(d as int).last() == input@[d - 1]);
        }
        if chars[d - 1] == '.' {
            dot = d - 1;
            found = true;
        } else {
            d = d - 1;
        }
    }
    proof {
        if !found {
            lemma_ext_dot_none(input@.take(d as int), name_start as int);
            assert(last_ext_dot(input@, name_start as int) == -1);
        }
    }
    let mut out: Vec<char> = Vec::new();
    let stop = if found {
        dot
    } else {
        n
    };
    let mut t: usize = 0;
    while t < stop
        invariant
            t <= stop <= n,
            n == chars@.len(),
            chars@ == input@,
            out@ =~= input@.take(t as int),
        decreases stop - t,
    {
        out.push(chars[t]);
        t = t + 1;
    }
    out.push('.');
    let ec = string_to_chars(ext.as_str());
    let mut u: usize = 0;
    while u < ec.len()
        invariant
            u <= ec@.len(),
            ec@ == ext@,
            out@ =~= input@.take(stop as int) + seq!['.'] + ext@.take(u as int),
        decreases ec@.len() - u,
    {
        out.push(ec[u]);
        u = u + 1;
    }
    chars_to_string(&out)
}

/// Perform one conversion.
///
/// A same-format request short-circuits as an informational no-op.
/// Otherwise the source reader lowers the input document to points
/// (failing only when a fixed-width document has no header), the layer
/// filters are upper-cased once, and the destination writer produces
/// the output document, destined for the given output path or for the
/// input path with the destination's extension.
pub fn run(options: ConvertOptions, input: InputDoc) -> (r: Result<
    RunResult,
    ConvertError,
>)
    requires
        (options.from == InFormat::Dxf) <==> (input@ is Entities),
    ensures
        ({
            let filters = upper_filters(options.layers.deep_view());
            if same_format(options.from, options.to) {
                r == Ok::<RunResult, ConvertError>(RunResult::SameFormat)
            } else {
                match read_points(options.from, input@) {
                    Err(e) => r == Err::<RunResult, ConvertError>(e),
                    Ok(points) => {
                        &&& r is Ok
                        &&& r->Ok_0 is Converted
                        &&& (r->Ok_0)->Converted_0.output_path@ == (
                            if options.output is Some {
                                options.output->0@
                            } else {
                                default_output_spec(
                                    options.input@,
                                    options.to.extension_spec(),
                                )
                            })
                        &&& (r->Ok_0)->Converted_0.doc@ == write_doc(
                            options.to,
                            points,
                            filters,
                        )
                    },
                }
            }
        }),
{
    let ConvertOptions { from, to, layers, output, input: input_path } = options;
    let same = match (from, to) {
        (InFormat::Dxf, OutFormat::Dxf) => true,
        (InFormat::NikonCoord, OutFormat::NikonCoord) => true,
        _ => false,
    };
    if same {
        return Ok(RunResult::SameFormat);
    }
    let points = match (from, input) {
        (InFormat::Dxf, InputDoc::Entities(es)) => {
            let mut reader = DxfReader::new(es);
            reader.parse()
        },
        (InFormat::NikonCoord, InputDoc::Lines(lines)) => {
            let mut reader = NikonCoordReader::new(lines);
            reader.parse()
        },
        (InFormat::Sdr, InputDoc::Lines(lines)) => {
            match SdrReader::new(lines) {
                Ok(mut reader) => reader.parse(),
                Err(e) => {
                    return Err(e);
                },
            }
        },
        (InFormat::Dxf, InputDoc::Lines(_)) => {
            proof {
                assert(false);
            }
            Vec::new()
        },
        (_, InputDoc::Entities(_)) => {
            proof {
                assert(false);
            }
            Vec::new()
        },
    };
    let ext = to.extension();
    let path = match output {
        Some(p) => p,
        None => default_output_path(input_path.as_str(), &ext),
    };
    let mut filters: Vec<String> = Vec::new();
    let ghost lv = layers.deep_view();
    let k = layers.len();
    let mut i: usize = 0;
    proof {
        assert(filters.deep_view() =~~= upper_filters(lv.take(0)));
    }
    while i < k
        invariant
            i <= k,
            k == layers@.len(),
            lv == layers.deep_view(),
            filters.deep_view() == upper_filters(lv.take(i as int)),
        decreases k - i,
    {
        proof {
            assert(lv[i as int] == layers@[i as int]@);
        }
        let up = chars_to_string(&to_upper_chars(&string_to_chars(layers[i].as_str())));
        let ghost upv = up@;
        let ghost old_deep = filters.deep_view();
        filters.push(up);
        proof {
            assert(upv == upper_spec(lv[i as int]));
            assert(filters.deep_view() =~~= old_deep.push(upv));
            assert(upper_filters(lv.take(i + 1)) =~~= upper_filters(
                lv.take(i as int),
            ).push(upper_spec(lv[i as int])));
            assert(filters.deep_view() =~~= upper_filters(lv.take(i + 1)));
        }
        i = i + 1;
    }
    proof {
        assert(lv.take(k as int) =~= lv);
    }
    let doc = match to {
        OutFormat::Dxf => {
            let writer = DxfWriter::new(points, filters);
            OutputDoc::Drawing(writer.drawing)
        },
        OutFormat::NikonCoord => {
            let writer = NikonCoordWriter::new(points, filters);
            OutputDoc::Lines(writer.render())
        },
    };
    Ok(RunResult::Converted(Conversion { output_path: path, doc }))
}

} // verus!
