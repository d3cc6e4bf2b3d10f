//! The schema scanner: a line-oriented, stateful parser that recognizes
//! enumeration type declarations (single-line and multi-line) and
//! vector-typed column references in free-form schema text, skipping
//! everything else and recovering from malformed declarations.
use crate::text::contains_ci;
use crate::text::contains_ci_x;
use crate::text::contains_cs;
use crate::text::contains_cs_x;
use crate::text::ends_with_cs;
use crate::text::ends_with_cs_x;
use crate::text::find_char;
use crate::text::find_char_from;
use crate::text::find_ci;
use crate::text::find_ci_from;
use crate::text::find_cs;
use crate::text::find_cs_from;
use crate::text::rfind_char;
use crate::text::rfind_char_x;
use crate::text::spec_trim;
use crate::text::starts_with_ci;
use crate::text::starts_with_ci_x;
use crate::text::trim_str;
use vstd::prelude::*;
use vstd::string::StrSliceExecFns;

verus! {

/// A discovered enumeration, mathematically: its bare name and its
/// labels in source order.
#[verifier::ext_equal]
pub struct EnumV {
    pub name: Seq<char>,
    pub values: Seq<Seq<char>>,
}

/// The scanner's findings over a whole input.
#[verifier::ext_equal]
pub struct ScanV {
    pub enums: Seq<EnumV>,
    pub has_vector: bool,
}

/// A line as `str::lines` yields it: one trailing carriage return
/// before the line feed is dropped.
pub open spec fn strip_cr(s: Seq<char>) -> Seq<char> {
    if s.len() > 0 && s.last() == '\r' {
        s.drop_last()
    } else {
        s
    }
}

/// The line sequence of a text, split at line feeds.
pub open spec fn spec_lines(s: Seq<char>) -> Seq<Seq<char>>
    decreases s.len(),
    via spec_lines_decreases
{
    if s.len() == 0 {
        Seq::empty()
    } else {
        let i = find_char_from(s, '\n', 0);
        if i < 0 {
            seq![s]
        } else {
            seq![strip_cr(s.subrange(0, i))] + spec_lines(s.subrange(i + 1, s.len() as int))
        }
    }
}

#[via_fn]
proof fn spec_lines_decreases(s: Seq<char>) {
    if s.len() > 0 && find_char_from(s, '\n', 0) >= 0 {
        crate::text::lemma_find_char_from_in_range(s, '\n', 0);
    }
}

/// The label a comma-separated piece contributes: the text between the
/// quotes, provided the trimmed piece is quoted and non-empty.
pub open spec fn label_of(piece: Seq<char>) -> Option<Seq<char>> {
    let p = spec_trim(piece);
    if p.len() > 2 && p[0] == '\'' && p[p.len() - 1] == '\'' {
        Some(p.subrange(1, p.len() - 1))
    } else {
        None
    }
}

pub open spec fn label_seq(o: Option<Seq<char>>) -> Seq<Seq<char>> {
    match o {
        Some(v) => seq![v],
        None => Seq::empty(),
    }
}

/// All labels contributed by a comma-separated list.
pub open spec fn labels_of(s: Seq<char>) -> Seq<Seq<char>>
    decreases s.len(),
    via labels_of_decreases
{
    let i = find_char_from(s, ',', 0);
    if i < 0 {
        label_seq(label_of(s))
    } else {
        label_seq(label_of(s.subrange(0, i))) + labels_of(s.subrange(i + 1, s.len() as int))
    }
}

#[via_fn]
proof fn labels_of_decreases(s: Seq<char>) {
    if find_char_from(s, ',', 0) >= 0 {
        crate::text::lemma_find_char_from_in_range(s, ',', 0);
    }
}

/// The line up to (and not including) a `--` comment.
pub open spec fn strip_comment(s: Seq<char>) -> Seq<char> {
    let i = find_cs_from(s, "--"@, 0);
    if i < 0 {
        s
    } else {
        s.subrange(0, i)
    }
}

/// The bare type name declared on a (trimmed) first line: the text
/// between the keywords, with any schema qualifier stripped; nothing if
/// either keyword is missing or they do not delimit a name.
pub open spec fn enum_name_of(s0: Seq<char>) -> Option<Seq<char>> {
    let ct = find_ci_from(s0, "CREATE TYPE"@, 0);
    let ae = find_ci_from(s0, "AS ENUM"@, 0);
    if ct < 0 || ae < 0 || ae < ct + "CREATE TYPE"@.len() {
        None
    } else {
        let raw = spec_trim(s0.subrange(ct + "CREATE TYPE"@.len(), ae));
        let d = rfind_char(raw, '.');
        if d < 0 {
            Some(raw)
        } else {
            Some(raw.subrange(d + 1, raw.len() as int))
        }
    }
}

/// The labels of a single-line declaration: those between the first
/// parentheses of the comment-stripped line.
pub open spec fn single_line_labels(s0: Seq<char>) -> Seq<Seq<char>> {
    let lwc = strip_comment(s0);
    let p = find_char_from(lwc, '(', 0);
    let q = find_char_from(lwc, ')', 0);
    if p < 0 || q < 0 || q < p + 1 {
        Seq::empty()
    } else {
        labels_of(lwc.subrange(p + 1, q))
    }
}

/// The walk over a multi-line declaration: labels accumulate once a
/// line holding `AS ENUM` has been seen, and the walk stops on the
/// first line whose comment-stripped text holds the terminator.
/// Yields the labels and the line the cursor is left on.
pub open spec fn ml_scan(lines: Seq<Seq<char>>, j: int, in_def: bool, acc: Seq<Seq<char>>) -> (
    Seq<Seq<char>>,
    int,
)
    decreases lines.len() - j,
{
    if j < 0 || j >= lines.len() {
        (acc, j)
    } else {
        let t = spec_trim(lines[j]);
        let in2 = in_def || contains_ci(t, "AS ENUM"@);
        if in2 {
            let lwc = strip_comment(t);
            let acc2 = acc + labels_of(lwc);
            if contains_cs(lwc, ");"@) {
                (acc2, j)
            } else {
                ml_scan(lines, j + 1, true, acc2)
            }
        } else {
            ml_scan(lines, j + 1, false, acc)
        }
    }
}

pub open spec fn mk_enum(name: Seq<char>, values: Seq<Seq<char>>) -> Option<EnumV> {
    if values.len() > 0 {
        Some(EnumV { name, values })
    } else {
        None
    }
}

/// One attempt at an enum declaration starting at line `i`: the
/// declaration found (if any labels were) and the line the cursor is
/// left on.
pub open spec fn parse_enum_at(lines: Seq<Seq<char>>, i: int) -> (Option<EnumV>, int) {
    let s0 = spec_trim(lines[i]);
    match enum_name_of(s0) {
        None => (None, i),
        Some(name) => {
            if contains_cs(s0, ");"@) {
                (mk_enum(name, single_line_labels(s0)), i)
            } else {
                let (vs, j) = ml_scan(lines, i, false, Seq::empty());
                (mk_enum(name, vs), j)
            }
        },
    }
}

/// The first line at or after `j` whose trimmed text ends with the
/// terminator (`lines.len()` if there is none).
pub open spec fn skip_term(lines: Seq<Seq<char>>, j: int) -> int
    decreases lines.len() - j,
{
    if j < 0 || j >= lines.len() {
        j
    } else if ends_with_cs(spec_trim(lines[j]), ");"@) {
        j
    } else {
        skip_term(lines, j + 1)
    }
}

proof fn lemma_ml_scan_bounds(lines: Seq<Seq<char>>, j: int, in_def: bool, acc: Seq<Seq<char>>)
    requires
        0 <= j <= lines.len(),
    ensures
        j <= ml_scan(lines, j, in_def, acc).1 <= lines.len(),
    decreases lines.len() - j,
{
    if j < lines.len() {
        let t = spec_trim(lines[j]);
        let in2 = in_def || contains_ci(t, "AS ENUM"@);
        if in2 {
            let lwc = strip_comment(t);
            if !contains_cs(lwc, ");"@) {
                lemma_ml_scan_bounds(lines, j + 1, true, acc + labels_of(lwc));
            }
        } else {
            lemma_ml_scan_bounds(lines, j + 1, false, acc);
        }
    }
}

proof fn lemma_skip_term_bounds(lines: Seq<Seq<char>>, j: int)
    requires
        0 <= j <= lines.len(),
    ensures
        j <= skip_term(lines, j) <= lines.len(),
    decreases lines.len() - j,
{
    if j < lines.len() && !ends_with_cs(spec_trim(lines[j]), ");"@) {
        lemma_skip_term_bounds(lines, j + 1);
    }
}

proof fn lemma_parse_enum_at_bounds(lines: Seq<Seq<char>>, i: int)
    requires
        0 <= i < lines.len(),
    ensures
        i <= parse_enum_at(lines, i).1 <= lines.len(),
{
    lemma_ml_scan_bounds(lines, i, false, Seq::empty());
}

/// The whole scan from line `i` on: at a line that opens an enum
/// declaration, one parse attempt, then a skip past the first line
/// ending with the terminator; at a line holding a vector column
/// reference, the vector mark; else one line on.
pub open spec fn scan_from(lines: Seq<Seq<char>>, i: int) -> ScanV
    decreases lines.len() - i,
    via scan_from_decreases
{
    if i < 0 || i >= lines.len() {
        ScanV { enums: Seq::empty(), has_vector: false }
    } else {
        let t = spec_trim(lines[i]);
        if starts_with_ci(t, "CREATE TYPE"@) && contains_ci(t, "ENUM"@) {
            let (opt, j) = parse_enum_at(lines, i);
            let nxt = if skip_term(lines, j) + 1 <= lines.len() {
                skip_term(lines, j) + 1
            } else {
                lines.len() as int
            };
            let rest = scan_from(lines, nxt);
            ScanV {
                enums: match opt {
                    Some(e) => seq![e] + rest.enums,
                    None => rest.enums,
                },
                has_vector: rest.has_vector,
            }
        } else if contains_ci(t, "VECTOR("@) {
            let rest = scan_from(lines, i + 1);
            ScanV { enums: rest.enums, has_vector: true }
        } else {
            scan_from(lines, i + 1)
        }
    }
}

#[via_fn]
proof fn scan_from_decreases(lines: Seq<Seq<char>>, i: int) {
    if 0 <= i < lines.len() {
        let t = spec_trim(lines[i]);
        if starts_with_ci(t, "CREATE TYPE"@) && contains_ci(t, "ENUM"@) {
            lemma_parse_enum_at_bounds(lines, i);
            lemma_skip_term_bounds(lines, parse_enum_at(lines, i).1);
        }
    }
}

/// What scanning a whole text yields.
pub open spec fn spec_scan(text: Seq<char>) -> ScanV {
    scan_from(spec_lines(text), 0)
}

/// Labels split across the lines of a multi-line declaration only ever
/// join the end of what came before, in source order: the walk from
/// any accumulator yields that accumulator followed by the labels the
/// walk itself collects.
pub proof fn lemma_ml_scan_append(lines: Seq<Seq<char>>, j: int, in_def: bool, acc: Seq<Seq<char>>)
    ensures
        ml_scan(lines, j, in_def, acc).0 =~= acc + ml_scan(lines, j, in_def, Seq::empty()).0,
        ml_scan(lines, j, in_def, acc).1 == ml_scan(lines, j, in_def, Seq::empty()).1,
    decreases lines.len() - j,
{
    if j < 0 || j >= lines.len() {
        assert(ml_scan(lines, j, in_def, acc).0 =~= acc + Seq::<Seq<char>>::empty());
    } else {
        let t = spec_trim(lines[j]);
        let in2 = in_def || contains_ci(t, "AS ENUM"@);
        if in2 {
            let lwc = strip_comment(t);
            let lbs = labels_of(lwc);
            if contains_cs(lwc, ");"@) {
                assert(ml_scan(lines, j, in_def, acc).0 =~= acc + (Seq::empty() + lbs));
            } else {
                lemma_ml_scan_append(lines, j + 1, true, acc + lbs);
                lemma_ml_scan_append(lines, j + 1, true, Seq::<Seq<char>>::empty() + lbs);
                assert(ml_scan(lines, j, in_def, acc).0 =~= (acc + lbs) + ml_scan(
                    lines,
                    j + 1,
                    true,
                    Seq::empty(),
                ).0);
                assert(ml_scan(lines, j, in_def, Seq::empty()).0 =~= (Seq::empty() + lbs)
                    + ml_scan(lines, j + 1, true, Seq::empty()).0);
                assert((acc + lbs) + ml_scan(lines, j + 1, true, Seq::empty()).0 =~= acc + ((
                Seq::empty() + lbs) + ml_scan(lines, j + 1, true, Seq::empty()).0));
            }
        } else {
            lemma_ml_scan_append(lines, j + 1, false, acc);
        }
    }
}

/// The labels the lines `j` through `stop` contribute, one line's
/// comma-separated quoted tokens after the other.
pub open spec fn ml_lines_labels(lines: Seq<Seq<char>>, j: int, stop: int) -> Seq<Seq<char>>
    decreases stop + 1 - j,
{
    if j < 0 || j > stop || j >= lines.len() {
        Seq::empty()
    } else {
        labels_of(strip_comment(spec_trim(lines[j]))) + ml_lines_labels(lines, j + 1, stop)
    }
}

/// Over a multi-line declaration the accumulated label sequence is the
/// per-line quoted tokens concatenated in source order, however the
/// labels are split across the lines.
pub proof fn lemma_ml_scan_concat(lines: Seq<Seq<char>>, j: int)
    requires
        0 <= j,
    ensures
        ml_scan(lines, j, true, Seq::empty()).0 =~= ml_lines_labels(
            lines,
            j,
            ml_scan(lines, j, true, Seq::empty()).1,
        ),
    decreases lines.len() - j,
{
    if j < lines.len() {
        let t = spec_trim(lines[j]);
        let lwc = strip_comment(t);
        let lbs = labels_of(lwc);
        let stop = ml_scan(lines, j, true, Seq::empty()).1;
        if contains_cs(lwc, ");"@) {
            assert(stop == j);
            assert(ml_scan(lines, j, true, Seq::empty()).0 =~= lbs);
            assert(ml_lines_labels(lines, j + 1, j) =~= Seq::<Seq<char>>::empty());
            assert(ml_lines_labels(lines, j, j) =~= lbs);
        } else {
            lemma_ml_scan_append(lines, j + 1, true, Seq::<Seq<char>>::empty() + lbs);
            lemma_ml_scan_concat(lines, j + 1);
            lemma_ml_scan_bounds(lines, j + 1, true, Seq::<Seq<char>>::empty() + lbs);
            assert(stop == ml_scan(lines, j + 1, true, Seq::empty()).1);
            assert(ml_scan(lines, j, true, Seq::empty()).0 =~= (Seq::<Seq<char>>::empty() + lbs)
                + ml_scan(lines, j + 1, true, Seq::empty()).0);
            assert(j + 1 <= stop);
            assert(ml_lines_labels(lines, j, stop) =~= lbs + ml_lines_labels(
                lines,
                j + 1,
                stop,
            ));
        }
    }
}

/// A schema qualifier never leaks into a declared name: the name an
/// enum declaration yields holds no `.`.
pub proof fn lemma_enum_name_unqualified(s0: Seq<char>)
    requires
        enum_name_of(s0) is Some,
    ensures
        forall|i: int|
            0 <= i < enum_name_of(s0).unwrap().len() ==> enum_name_of(s0).unwrap()[i] != '.',
{
    let ct = find_ci_from(s0, "CREATE TYPE"@, 0);
    let ae = find_ci_from(s0, "AS ENUM"@, 0);
    let raw = spec_trim(s0.subrange(ct + "CREATE TYPE"@.len(), ae));
    let d = rfind_char(raw, '.');
    if d < 0 {
        crate::text::lemma_rfind_char_none(raw, '.');
    } else {
        crate::text::lemma_rfind_char_last(raw, '.');
        crate::text::lemma_rfind_char_in_range(raw, '.');
        let nm = enum_name_of(s0).unwrap();
        assert forall|i: int| 0 <= i < nm.len() implies nm[i] != '.' by {
            assert(nm[i] == raw[d + 1 + i]);
        }
    }
}

/// A declaration with no valid quoted labels yields no enumeration:
/// every enumeration a scan produces carries at least one label.
pub proof fn lemma_enum_values_nonempty(lines: Seq<Seq<char>>, i: int)
    ensures
        parse_enum_at(lines, i).0 is Some ==> parse_enum_at(lines, i).0.unwrap().values.len() > 0,
{
}

/// However many vector column references one scan sees, at most one
/// `vector` marker stands in the result; a scan that starts with none
/// records exactly one when a reference occurs, none otherwise.
pub proof fn lemma_vector_recorded_once(v: Seq<Seq<char>>, saw_vector: bool)
    requires
        v.len() == 0,
    ensures
        vec_merge(v, saw_vector).len() == if saw_vector {
            1int
        } else {
            0int
        },
{
    if saw_vector {
        assert(!has_vector_entry(v));
    }
}

/// An enumeration type discovered in the schema: its bare name and its
/// labels in source order.
#[derive(Debug, Clone)]
pub struct EnumType {
    pub name: String,
    pub values: Vec<String>,
}

impl View for EnumType {
    type V = EnumV;

    open spec fn view(&self) -> EnumV {
        EnumV { name: self.name@, values: self.values.deep_view() }
    }
}

impl DeepView for EnumType {
    type V = EnumV;

    open spec fn deep_view(&self) -> EnumV {
        self.view()
    }
}

/// A marker for the vector extension type; recorded at most once.
#[derive(Debug, Clone)]
pub struct VectorType {
    pub name: String,
}

impl View for VectorType {
    type V = Seq<char>;

    open spec fn view(&self) -> Seq<char> {
        self.name@
    }
}

impl DeepView for VectorType {
    type V = Seq<char>;

    open spec fn deep_view(&self) -> Seq<char> {
        self.view()
    }
}

/// Some collection of vector markers holds the `vector` entry.
pub open spec fn has_vector_entry(v: Seq<Seq<char>>) -> bool {
    exists|k: int| 0 <= k < v.len() && v[k] == "vector"@
}

/// The scanner: collects enumeration types and vector markers over any
/// number of inputs.
pub struct SchemaParser {
    pub enum_types: Vec<EnumType>,
    pub vector_types: Vec<VectorType>,
    pub verbose: bool,
}

/// The vector collection after a scan: one `vector` entry is added
/// when the scan saw a vector reference and no entry was there yet.
pub open spec fn vec_merge(v: Seq<Seq<char>>, saw_vector: bool) -> Seq<Seq<char>> {
    if saw_vector && !has_vector_entry(v) {
        v.push("vector"@)
    } else {
        v
    }
}

/// The line sequence of a text, each line its own `String`.
fn split_lines(s: &str) -> (r: Vec<String>)
    ensures
        r.deep_view() == spec_lines(s@),
{
    let mut out: Vec<String> = Vec::new();
    let mut rest: &str = s;
    proof {
        assert(out.deep_view() =~= Seq::<Seq<char>>::empty());
    }
    loop
        invariant_except_break
            out.deep_view() + spec_lines(rest@) =~= spec_lines(s@),
        ensures
            out.deep_view() == spec_lines(s@),
        decreases rest@.len(),
    {
        let n = rest.unicode_len();
        if n == 0 {
            proof {
                assert(out.deep_view() + spec_lines(rest@) =~= out.deep_view());
            }
            break;
        }
        let ghost pre = out.deep_view();
        match find_char(rest, '\n') {
            None => {
                out.push(rest.to_owned());
                proof {
                    assert(spec_lines(rest@) =~= seq![rest@]);
                    assert(out.deep_view() =~= pre.push(rest@));
                    assert(out.deep_view() =~= spec_lines(s@));
                }
                break;
            },
            Some(i) => {
                proof {
                    crate::text::lemma_find_char_from_in_range(rest@, '\n', 0);
                }
                let ghost old_rest = rest@;
                let line = if i > 0 && rest.get_char(i - 1) == '\r' {
                    rest.substring_char(0, i - 1)
                } else {
                    rest.substring_char(0, i)
                };
                proof {
                    if i > 0 && old_rest[i - 1] == '\r' {
                        assert(old_rest.subrange(0, i as int).drop_last() =~= old_rest.subrange(
                            0,
                            i - 1,
                        ));
                        assert(old_rest.subrange(0, i as int).last() == '\r');
                    }
                    assert(line@ == strip_cr(old_rest.subrange(0, i as int)));
                }
                out.push(line.to_owned());
                rest = rest.substring_char(i + 1, n);
                proof {
                    assert(out.deep_view() =~= pre.push(line@));
                    assert(spec_lines(old_rest) =~= seq![strip_cr(old_rest.subrange(0, i as int))]
                        + spec_lines(rest@));
                    assert(out.deep_view() + spec_lines(rest@) =~= pre + spec_lines(old_rest));
                }
            },
        }
    }
    out
}

/// Appends to `values` the labels that the comma-separated list `s`
/// contributes.
fn collect_labels(s: &str, values: &mut Vec<String>)
    ensures
        final(values).deep_view() == old(values).deep_view() + labels_of(s@),
{
    let mut rest: &str = s;
    loop
        invariant_except_break
            old(values).deep_view() + labels_of(s@) =~= values.deep_view() + labels_of(rest@),
        ensures
            values.deep_view() == old(values).deep_view() + labels_of(s@),
        decreases rest@.len(),
    {
        let ghost old_rest = rest@;
        let ghost pre = values.deep_view();
        let piece: &str;
        let more: bool;
        match find_char(rest, ',') {
            None => {
                piece = rest;
                more = false;
            },
            Some(i) => {
                proof {
                    crate::text::lemma_find_char_from_in_range(rest@, ',', 0);
                }
                let n = rest.unicode_len();
                piece = rest.substring_char(0, i);
                rest = rest.substring_char(i + 1, n);
                more = true;
            },
        }
        let t = trim_str(piece);
        let tn = t.unicode_len();
        if tn > 2 && t.get_char(0) == '\'' && t.get_char(tn - 1) == '\'' {
            let v = t.substring_char(1, tn - 1);
            values.push(v.to_owned());
            proof {
                assert(label_of(piece@) == Some(v@));
                assert(values.deep_view() =~= pre.push(v@));
                assert(values.deep_view() =~= pre + label_seq(label_of(piece@)));
            }
        } else {
            proof {
                assert(label_of(piece@) is None);
                assert(values.deep_view() =~= pre + label_seq(label_of(piece@)));
            }
        }
        if more {
            proof {
                assert(labels_of(old_rest) =~= label_seq(label_of(piece@)) + labels_of(rest@));
                assert(values.deep_view() + labels_of(rest@) =~= pre + labels_of(old_rest));
            }
        } else {
            proof {
                assert(labels_of(old_rest) =~= label_seq(label_of(piece@)));
                assert(values.deep_view() =~= pre + labels_of(old_rest));
                assert(values.deep_view() =~= old(values).deep_view() + labels_of(s@));
            }
            break;
        }
    }
}

/// The collection of vector markers holds the `vector` entry.
fn has_vector_entry_x(v: &Vec<VectorType>) -> (r: bool)
    ensures
        r == has_vector_entry(v.deep_view()),
{
    let n = v.len();
    let mut k: usize = 0;
    while k < n
        invariant
            k <= n,
            n == v@.len(),
            forall|j: int| 0 <= j < k ==> v.deep_view()[j] != "vector"@,
        decreases n - k,
    {
        if crate::text::str_eq_x(v[k].name.as_str(), "vector") {
            assert(v.deep_view()[k as int] == "vector"@);
            return true;
        }
        k += 1;
    }
    false
}

impl SchemaParser {
    /// A fresh scanner with nothing discovered yet; `verbose` records
    /// whether the caller wants its decisions traced.
    pub fn with_verbose(verbose: bool) -> (p: SchemaParser)
        ensures
            p.enum_types@.len() == 0,
            p.vector_types@.len() == 0,
            p.verbose == verbose,
    {
        SchemaParser { enum_types: Vec::new(), vector_types: Vec::new(), verbose }
    }

    /// One attempt at the enum declaration that starts at line
    /// `*index`; leaves `*index` on the line the attempt consumed up
    /// to, exactly as `parse_enum_at` says.
    fn parse_enum_type(&self, lines: &Vec<String>, index: &mut usize) -> (r: Option<EnumType>)
        requires
            *old(index) < lines@.len(),
        ensures
            r.deep_view() == parse_enum_at(lines.deep_view(), *old(index) as int).0,
            *final(index) == parse_enum_at(lines.deep_view(), *old(index) as int).1,
    {
        let ghost ldv = lines.deep_view();
        let ghost i0 = *index as int;
        let s0 = trim_str(lines[*index].as_str());
        proof {
            assert(s0@ == spec_trim(ldv[i0]));
        }
        let ct = match find_ci(s0, "CREATE TYPE") {
            Some(c) => c,
            None => {
                return None;
            },
        };
        let ae = match find_ci(s0, "AS ENUM") {
            Some(c) => c,
            None => {
                return None;
            },
        };
        proof {
            crate::text::lemma_find_ci_from_in_range(s0@, "CREATE TYPE"@, 0);
            crate::text::lemma_find_ci_from_in_range(s0@, "AS ENUM"@, 0);
        }
        // measuring s0 bounds its length, so the index sums below fit in usize
        let _s0n = s0.unicode_len();
        let ctlen = "CREATE TYPE".unicode_len();
        if ae < ct + ctlen {
            return None;
        }
        let raw = trim_str(s0.substring_char(ct + ctlen, ae));
        let rawn = raw.unicode_len();
        let name_str: &str = match rfind_char_x(raw, '.') {
            None => raw,
            Some(d) => {
                proof {
                    crate::text::lemma_rfind_char_in_range(raw@, '.');
                }
                raw.substring_char(d + 1, rawn)
            },
        };
        assert(enum_name_of(s0@) == Some(name_str@));
        let name: String = name_str.to_owned();
        let mut values: Vec<String> = Vec::new();
        proof {
            assert(values.deep_view() =~= Seq::<Seq<char>>::empty());
        }
        if contains_cs_x(s0, ");") {
            let lwc: &str = match find_cs(s0, "--") {
                Some(p) => {
                    proof {
                        crate::text::lemma_find_cs_from_in_range(s0@, "--"@, 0);
                    }
                    s0.substring_char(0, p)
                },
                None => s0,
            };
            assert(lwc@ == strip_comment(s0@));
            let ln = lwc.unicode_len();
            if let Some(p) = find_char(lwc, '(') {
                if let Some(q) = find_char(lwc, ')') {
                    proof {
                        crate::text::lemma_find_char_from_in_range(lwc@, '(', 0);
                        crate::text::lemma_find_char_from_in_range(lwc@, ')', 0);
                    }
                    if q >= p + 1 {
                        let inner = lwc.substring_char(p + 1, q);
                        collect_labels(inner, &mut values);
                    }
                }
            }
            assert(values.deep_view() =~= single_line_labels(s0@));
        } else {
            let mut in_def = false;
            let n = lines.len();
            loop
                invariant_except_break
                    i0 <= *index <= n,
                    n == lines@.len(),
                    ldv == lines.deep_view(),
                    ml_scan(ldv, i0, false, Seq::empty()) == ml_scan(
                        ldv,
                        *index as int,
                        in_def,
                        values.deep_view(),
                    ),
                ensures
                    ml_scan(ldv, i0, false, Seq::empty()) == (values.deep_view(), *index as int),
                decreases n - *index,
            {
                if *index >= n {
                    break;
                }
                let ghost idx = *index as int;
                let ghost in0 = in_def;
                let ghost pre = values.deep_view();
                let t = trim_str(lines[*index].as_str());
                proof {
                    assert(t@ == spec_trim(ldv[idx]));
                }
                if contains_ci_x(t, "AS ENUM") {
                    in_def = true;
                }
                if in_def {
                    let lwc: &str = match find_cs(t, "--") {
                        Some(p) => {
                            proof {
                                crate::text::lemma_find_cs_from_in_range(t@, "--"@, 0);
                            }
                            t.substring_char(0, p)
                        },
                        None => t,
                    };
                    assert(lwc@ == strip_comment(t@));
                    collect_labels(lwc, &mut values);
                    proof {
                        assert(values.deep_view() =~= pre + labels_of(lwc@));
                    }
                    if contains_cs_x(lwc, ");") {
                        proof {
                            assert(ml_scan(ldv, idx, in0, pre) == (
                                values.deep_view(),
                                *index as int,
                            ));
                        }
                        break;
                    }
                }
                *index += 1;
            }
        }
        if values.len() > 0 {
            let e = EnumType { name, values };
            proof {
                assert(e.deep_view() =~= EnumV { name: name_str@, values: e.values.deep_view() });
            }
            Some(e)
        } else {
            None
        }
    }

    /// One pass over the whole text: every discovered enumeration is
    /// appended in source order, and a single `vector` marker is added
    /// if a vector column reference occurs and none was recorded yet.
    pub fn parse_schema_contents(&mut self, contents: &str)
        ensures
            final(self).enum_types.deep_view() == old(self).enum_types.deep_view() + spec_scan(
                contents@,
            ).enums,
            final(self).vector_types.deep_view() == vec_merge(
                old(self).vector_types.deep_view(),
                spec_scan(contents@).has_vector,
            ),
            final(self).verbose == old(self).verbose,
    {
        let lines = split_lines(contents);
        let ghost ldv = lines.deep_view();
        let n = lines.len();
        let mut i: usize = 0;
        loop
            invariant_except_break
                i <= n,
                n == lines@.len(),
                ldv == lines.deep_view(),
                ldv == spec_lines(contents@),
                self.enum_types.deep_view() + scan_from(ldv, i as int).enums =~= old(
                    self,
                ).enum_types.deep_view() + scan_from(ldv, 0).enums,
                vec_merge(self.vector_types.deep_view(), scan_from(ldv, i as int).has_vector)
                    =~= vec_merge(old(self).vector_types.deep_view(), scan_from(ldv, 0).has_vector),
                self.verbose == old(self).verbose,
            ensures
                self.enum_types.deep_view() == old(self).enum_types.deep_view() + scan_from(
                    ldv,
                    0,
                ).enums,
                self.vector_types.deep_view() == vec_merge(
                    old(self).vector_types.deep_view(),
                    scan_from(ldv, 0).has_vector,
                ),
                self.verbose == old(self).verbose,
            decreases n - i,
        {
            if i >= n {
                proof {
                    assert(scan_from(ldv, i as int).enums =~= Seq::<EnumV>::empty());
                    assert(self.enum_types.deep_view() + scan_from(ldv, i as int).enums
                        =~= self.enum_types.deep_view());
                }
                break;
            }
            let ghost ii = i as int;
            let ghost cur_enums = self.enum_types.deep_view();
            let ghost cur_vecs = self.vector_types.deep_view();
            let line = trim_str(lines[i].as_str());
            proof {
                assert(line@ == spec_trim(ldv[ii]));
            }
            if starts_with_ci_x(line, "CREATE TYPE") && contains_ci_x(line, "ENUM") {
                let ghost pe = parse_enum_at(ldv, ii);
                proof {
                    lemma_parse_enum_at_bounds(ldv, ii);
                }
                let mut idx: usize = i;
                let r = self.parse_enum_type(&lines, &mut idx);
                if let Some(e) = r {
                    self.enum_types.push(e);
                    proof {
                        assert(self.enum_types.deep_view() =~= cur_enums.push(e.deep_view()));
                        assert(pe.0 == Some(e.deep_view()));
                    }
                }
                let mut j = idx;
                while j < n && !ends_with_cs_x(trim_str(lines[j].as_str()), ");")
                    invariant
                        idx <= j <= n,
                        n == lines@.len(),
                        ldv == lines.deep_view(),
                        skip_term(ldv, idx as int) == skip_term(ldv, j as int),
                    decreases n - j,
                {
                    proof {
                        assert(spec_trim(ldv[j as int]) == spec_trim(lines@[j as int]@));
                    }
                    j += 1;
                }
                assert(skip_term(ldv, idx as int) == j);
                proof {
                    let nxt = if skip_term(ldv, pe.1) + 1 <= ldv.len() {
                        skip_term(ldv, pe.1) + 1
                    } else {
                        ldv.len() as int
                    };
                    assert(scan_from(ldv, ii).enums == (match pe.0 {
                        Some(e) => seq![e] + scan_from(ldv, nxt).enums,
                        None => scan_from(ldv, nxt).enums,
                    }));
                    assert(scan_from(ldv, ii).has_vector == scan_from(ldv, nxt).has_vector);
                }
                if j >= n {
                    i = n;
                } else {
                    i = j + 1;
                }
                proof {
                    if pe.0 is Some {
                        assert(self.enum_types.deep_view() + scan_from(ldv, i as int).enums
                            =~= cur_enums + scan_from(ldv, ii).enums);
                    }
                }
            } else if contains_ci_x(line, "VECTOR(") {
                if !has_vector_entry_x(&self.vector_types) {
                    self.vector_types.push(VectorType { name: "vector".to_owned() });
                    proof {
                        assert(self.vector_types.deep_view() =~= cur_vecs.push("vector"@));
                        assert(self.vector_types.deep_view()[cur_vecs.len() as int] == "vector"@);
                        assert(has_vector_entry(self.vector_types.deep_view()));
                        assert(vec_merge(cur_vecs, true) =~= self.vector_types.deep_view());
                        assert(vec_merge(
                            self.vector_types.deep_view(),
                            scan_from(ldv, ii + 1).has_vector,
                        ) =~= self.vector_types.deep_view());
                    }
                } else {
                    proof {
                        assert(vec_merge(cur_vecs, true) =~= cur_vecs);
                        assert(vec_merge(
                            self.vector_types.deep_view(),
                            scan_from(ldv, ii + 1).has_vector,
                        ) =~= self.vector_types.deep_view());
                    }
                }
                proof {
                    assert(scan_from(ldv, ii).has_vector);
                    assert(scan_from(ldv, ii).enums == scan_from(ldv, ii + 1).enums);
                }
                i = i + 1;
            } else {
                proof {
                    assert(scan_from(ldv, ii) == scan_from(ldv, ii + 1));
                }
                i = i + 1;
            }
        }
    }
}

} // verus!
