//! Output helpers of code generation: the compiler-runtime import, v3
//! source maps with base64 VLQ encoded mappings, the naming and quoting of
//! identifiers and keys, and splicing compiled functions into the source.

use vstd::prelude::*;
use vstd::string::{StrSliceExecFns, StringExecFns};
use crate::text::{decimal, push_char, push_decimal, str_chars};
use crate::hir::types::{BinaryOp, Identifier, Place, ReactiveScopeDependency, SourceLocation, UnaryOp};

verus! {

/// Generate the import statement for the compiler runtime. JSX is kept as
/// JSX in the output, so only the `c` (cache) import is needed.
pub fn generate_import_statement() -> (r: String)
    ensures
        r@ == "import { c as _c } from \"react/compiler-runtime\";\n"@,
{
    String::from_str("import { c as _c } from \"react/compiler-runtime\";\n")
}

/// One mapping: a generated position and the original position it comes
/// from (lines and columns from 0).
#[derive(Debug, Clone)]
pub struct SourceMapEntry {
    pub generated_line: u32,
    pub generated_column: u32,
    pub original_line: u32,
    pub original_column: u32,
}

/// A source map: mappings from generated to original positions, in the
/// order they were added.
#[derive(Debug, Clone)]
pub struct SourceMap {
    pub mappings: Vec<SourceMapEntry>,
}

impl SourceMap {
    /// An empty source map.
    pub fn new() -> (r: Self)
        ensures
            r.mappings@ == Seq::<SourceMapEntry>::empty(),
    {
        SourceMap { mappings: Vec::new() }
    }

    /// Record that generated position (`gen_line`, `gen_col`) comes from
    /// original position (`orig_line`, `orig_col`).
    pub fn add_mapping(&mut self, gen_line: u32, gen_col: u32, orig_line: u32, orig_col: u32)
        ensures
            final(self).mappings@ == old(self).mappings@.push(
                SourceMapEntry {
                    generated_line: gen_line,
                    generated_column: gen_col,
                    original_line: orig_line,
                    original_column: orig_col,
                },
            ),
    {
        self.mappings.push(
            SourceMapEntry {
                generated_line: gen_line,
                generated_column: gen_col,
                original_line: orig_line,
                original_column: orig_col,
            },
        );
    }
}

impl Default for SourceMap {
    fn default() -> (r: Self)
        ensures
            r.mappings@ == Seq::<SourceMapEntry>::empty(),
    {
        SourceMap::new()
    }
}

/// The base64 digit for `d` (`0 <= d < 64`): `A`-`Z`, `a`-`z`, `0`-`9`,
/// `+`, `/`.
pub open spec fn base64_digit(d: int) -> char {
    if d < 26 {
        (65 + d) as char
    } else if d < 52 {
        (97 + (d - 26)) as char
    } else if d < 62 {
        (48 + (d - 52)) as char
    } else if d == 62 {
        '+'
    } else {
        '/'
    }
}

/// The VLQ digits of a non-negative `n`: five bits per digit, least
/// significant first, with the continuation bit (32) set on every digit but
/// the last.
pub open spec fn vlq_digits(n: nat) -> Seq<char>
    decreases n,
{
    if n < 32 {
        seq![base64_digit(n as int)]
    } else {
        seq![base64_digit((n % 32 + 32) as int)] + vlq_digits(n / 32)
    }
}

/// The VLQ text of a signed value: its magnitude shifted left by one, with
/// the sign in the low bit.
pub open spec fn vlq(v: int) -> Seq<char> {
    if v < 0 {
        vlq_digits((-v * 2 + 1) as nat)
    } else {
        vlq_digits((v * 2) as nat)
    }
}

/// `k` semicolons.
pub open spec fn semicolons(k: nat) -> Seq<char> {
    Seq::new(k, |i: int| ';')
}

/// The encoder's state: the text so far, then the previous generated line,
/// generated column, original line and original column.
pub type VlqState = (Seq<char>, int, int, int, int);

/// The state after encoding one more mapping: a `;` for each generated
/// line passed (a new line restarts the generated column at 0), a `,`
/// between segments of one line, and the segment's four fields as VLQ
/// deltas from the previous ones (the source index is always 0).
pub open spec fn vlq_step(st: VlqState, e: SourceMapEntry) -> VlqState {
    let new_line = e.generated_line > st.1;
    let t0 = if new_line { st.0 + semicolons((e.generated_line - st.1) as nat) } else { st.0 };
    let gc = if new_line { 0 } else { st.2 };
    let t1 = if t0.len() > 0 && t0.last() != ';' { t0.push(',') } else { t0 };
    let t2 = t1 + vlq(e.generated_column - gc) + vlq(0) + vlq(e.original_line - st.3) + vlq(
        e.original_column - st.4,
    );
    (t2, if new_line { e.generated_line as int } else { st.1 }, e.generated_column as int, e.original_line as int, e.original_column as int)
}

/// The state after encoding the mappings in order.
pub open spec fn vlq_run(q: Seq<SourceMapEntry>) -> VlqState
    decreases q.len(),
{
    if q.len() == 0 {
        (Seq::empty(), 0, 0, 0, 0)
    } else {
        vlq_step(vlq_run(q.drop_last()), q.last())
    }
}

/// The `"mappings"` text of a v3 source map for the given mappings.
pub open spec fn vlq_mappings(q: Seq<SourceMapEntry>) -> Seq<char> {
    vlq_run(q).0
}

/// The JSON text of a v3 source map.
pub open spec fn source_map_json(file: Seq<char>, source_file: Seq<char>, mappings: Seq<char>) -> Seq<char> {
    "{\"version\":3,\"file\":\""@ + file + "\",\"sources\":[\""@ + source_file + "\"],\"mappings\":\""@
        + mappings + "\"}"@
}

fn base64_char(d: i64) -> (c: char)
    requires
        0 <= d < 64,
    ensures
        c == base64_digit(d as int),
{
    let b: u8 = if d < 26 {
        65 + d as u8
    } else if d < 52 {
        97 + (d - 26) as u8
    } else if d < 62 {
        48 + (d - 52) as u8
    } else if d == 62 {
        43
    } else {
        47
    };
    b as char
}

fn push_vlq_digits(output: &mut String, n: i64)
    requires
        n >= 0,
    ensures
        final(output)@ == old(output)@ + vlq_digits(n as nat),
    decreases n,
{
    let digit = n % 32;
    let rest = n / 32;
    if rest > 0 {
        push_char(output, base64_char(digit + 32));
        push_vlq_digits(output, rest);
        proof {
            assert(old(output)@ + vlq_digits(n as nat) =~= old(output)@.push(base64_digit(digit + 32)) + vlq_digits(rest as nat));
        }
    } else {
        push_char(output, base64_char(digit));
        proof {
            assert(old(output)@ + vlq_digits(n as nat) =~= old(output)@.push(base64_digit(digit as int)));
        }
    }
}

/// Encode a single signed integer as a VLQ string.
fn vlq_encode(output: &mut String, value: i64)
    requires
        -0x1_0000_0000_0000 < value < 0x1_0000_0000_0000,
    ensures
        final(output)@ == old(output)@ + vlq(value as int),
{
    let n: i64 = if value < 0 { (-value) * 2 + 1 } else { value * 2 };
    push_vlq_digits(output, n);
}

fn ends_with_semicolon(s: &String) -> (r: bool)
    ensures
        r == (s@.len() > 0 && s@.last() == ';'),
{
    let t = s.as_str();
    let n = t.unicode_len();
    n > 0 && t.get_char(n - 1) == ';'
}

impl SourceMap {
    /// The `"mappings"` field of a v3 source map: VLQ-encoded segments,
    /// `;` between generated lines and `,` between segments of one line.
    pub fn to_vlq_mappings(&self) -> (r: String)
        ensures
            r@ == vlq_mappings(self.mappings@),
    {
        if self.mappings.len() == 0 {
            return String::new();
        }
        let mut result = String::new();
        let mut prev_gen_line: u32 = 0;
        let mut prev_gen_col: i64 = 0;
        let mut prev_orig_line: i64 = 0;
        let mut prev_orig_col: i64 = 0;
        let mut prev_source: i64 = 0;
        let mut k: usize = 0;
        while k < self.mappings.len()
            invariant
                k <= self.mappings@.len(),
                prev_source == 0,
                vlq_run(self.mappings@.take(k as int)) == (result@, prev_gen_line as int, prev_gen_col as int, prev_orig_line as int, prev_orig_col as int),
                0 <= prev_gen_col <= u32::MAX,
                0 <= prev_orig_line <= u32::MAX,
                0 <= prev_orig_col <= u32::MAX,
            decreases self.mappings.len() - k,
        {
            proof {
                assert(self.mappings@.take(k + 1).drop_last() =~= self.mappings@.take(k as int));
            }
            let entry = &self.mappings[k];
            let ghost t_start = result@;
            let ghost line_start = prev_gen_line;
            let ghost gc_start = prev_gen_col;
            while prev_gen_line < entry.generated_line
                invariant
                    line_start <= prev_gen_line,
                    prev_gen_line > line_start ==> prev_gen_line <= entry.generated_line,
                    prev_gen_line == line_start ==> prev_gen_col == gc_start,
                    result@ == t_start + semicolons((prev_gen_line - line_start) as nat),
                    prev_gen_line > line_start ==> prev_gen_col == 0,
                    0 <= prev_gen_col <= u32::MAX,
                decreases entry.generated_line - prev_gen_line,
            {
                let ghost before = result@;
                push_char(&mut result, ';');
                proof {
                    assert(t_start + semicolons((prev_gen_line + 1 - line_start) as nat) =~= before.push(';'));
                }
                prev_gen_line = prev_gen_line + 1;
                prev_gen_col = 0;
            }
            proof {
                if entry.generated_line <= line_start {
                    assert(result@ =~= t_start);
                }
            }
            let ghost t0 = result@;
            if !result.as_str().is_empty() && !ends_with_semicolon(&result) {
                push_char(&mut result, ',');
            }
            let ghost t1 = result@;
            let ghost st = vlq_run(self.mappings@.take(k as int));
            let ghost gc0 = prev_gen_col;
            let gen_col = entry.generated_column as i64;
            vlq_encode(&mut result, gen_col - prev_gen_col);
            prev_gen_col = gen_col;
            vlq_encode(&mut result, 0 - prev_source);
            prev_source = 0;
            let orig_line = entry.original_line as i64;
            vlq_encode(&mut result, orig_line - prev_orig_line);
            prev_orig_line = orig_line;
            let orig_col = entry.original_column as i64;
            vlq_encode(&mut result, orig_col - prev_orig_col);
            prev_orig_col = orig_col;
            proof {
                let e = self.mappings@[k as int];
                assert(self.mappings@.take(k + 1).last() == e);
                let nst = vlq_step(st, e);
                assert(t0 == (if e.generated_line > st.1 { st.0 + semicolons((e.generated_line - st.1) as nat) } else { st.0 }));
                assert(t1 == (if t0.len() > 0 && t0.last() != ';' { t0.push(',') } else { t0 }));
                assert(gc0 == (if e.generated_line > st.1 { 0 } else { st.2 }));
                assert(result@ =~= nst.0);
            }
            k = k + 1;
        }
        proof {
            assert(self.mappings@.take(k as int) =~= self.mappings@);
        }
        result
    }

    /// Serialize to a complete v3 source map JSON string.
    pub fn to_json(&self, file: &str, source_file: &str) -> (r: String)
        ensures
            r@ == source_map_json(file@, source_file@, vlq_mappings(self.mappings@)),
    {
        let mappings = self.to_vlq_mappings();
        let mut out = String::from_str("{\"version\":3,\"file\":\"");
        out.append(file);
        out.append("\",\"sources\":[\"");
        out.append(source_file);
        out.append("\"],\"mappings\":\"");
        out.append(mappings.as_str());
        out.append("\"}");
        out
    }
}

// ---------------------------------------------------------------------------
// Identifiers and names in generated code
// ---------------------------------------------------------------------------

/// An ASCII letter.
pub open spec fn is_ascii_letter(c: char) -> bool {
    ('a' <= c && c <= 'z') || ('A' <= c && c <= 'Z')
}

/// An ASCII digit.
pub open spec fn is_ascii_digit(c: char) -> bool {
    '0' <= c && c <= '9'
}

/// A character that may start an identifier: a letter, `_` or `$`.
pub open spec fn is_ident_start(c: char) -> bool {
    is_ascii_letter(c) || c == '_' || c == '$'
}

/// A character that may continue an identifier: a letter, a digit, `_` or `$`.
pub open spec fn is_ident_char(c: char) -> bool {
    is_ident_start(c) || is_ascii_digit(c)
}

/// A plain (ASCII) JavaScript identifier.
pub open spec fn is_identifier(s: Seq<char>) -> bool {
    &&& s.len() > 0
    &&& is_ident_start(s[0])
    &&& forall|i: int| 1 <= i < s.len() ==> is_ident_char(#[trigger] s[i])
}

fn ident_start(c: char) -> (r: bool)
    ensures
        r == is_ident_start(c),
{
    ('a' <= c && c <= 'z') || ('A' <= c && c <= 'Z') || c == '_' || c == '$'
}

fn ident_char(c: char) -> (r: bool)
    ensures
        r == is_ident_char(c),
{
    ident_start(c) || ('0' <= c && c <= '9')
}

fn chars_form_identifier(cs: &Vec<char>, from: usize, to: usize) -> (r: bool)
    requires
        from <= to <= cs@.len(),
    ensures
        r == is_identifier(cs@.subrange(from as int, to as int)),
{
    let ghost w = cs@.subrange(from as int, to as int);
    if from == to {
        return false;
    }
    if !ident_start(cs[from]) {
        return false;
    }
    let mut i: usize = from + 1;
    while i < to
        invariant
            from < i <= to <= cs@.len(),
            w == cs@.subrange(from as int, to as int),
            is_ident_start(w[0]),
            forall|k: int| 1 <= k < i - from ==> is_ident_char(#[trigger] w[k]),
        decreases to - i,
    {
        if !ident_char(cs[i]) {
            proof {
                assert(w[i - from] == cs@[i as int]);
            }
            return false;
        }
        i = i + 1;
    }
    true
}

/// Whether a property name must be quoted as an object key: it is not a
/// plain identifier (empty, starts with a digit, holds a dot, a space, ...).
pub fn needs_object_key_quoting(name: &str) -> (r: bool)
    ensures
        r == !is_identifier(name@),
{
    let cs = str_chars(name);
    proof {
        assert(cs@.subrange(0, cs@.len() as int) =~= cs@);
    }
    !chars_form_identifier(&cs, 0, cs.len())
}

/// A compiler temporary's name: `t` followed by one or more digits.
pub open spec fn is_temp_name(s: Seq<char>) -> bool {
    &&& s.len() >= 2
    &&& s[0] == 't'
    &&& forall|i: int| 1 <= i < s.len() ==> is_ascii_digit(#[trigger] s[i])
}

/// Whether `name` has the shape of a compiler temporary, `t<digits>`.
pub fn is_temp_var_name(name: &str) -> (r: bool)
    ensures
        r == is_temp_name(name@),
{
    let cs = str_chars(name);
    if cs.len() < 2 || cs[0] != 't' {
        return false;
    }
    let mut i: usize = 1;
    while i < cs.len()
        invariant
            1 <= i <= cs@.len(),
            cs@ == name@,
            forall|k: int| 1 <= k < i ==> is_ascii_digit(#[trigger] cs@[k]),
        decreases cs.len() - i,
    {
        if !('0' <= cs[i] && cs[i] <= '9') {
            return false;
        }
        i = i + 1;
    }
    true
}

/// A place printed as a compiler temporary: unnamed, or named `t<digits>`.
pub open spec fn is_temp(place: Place) -> bool {
    match place.identifier.name {
        None => true,
        Some(n) => is_temp_name(n@),
    }
}

/// Whether a place is a compiler-generated temporary.
pub fn is_temp_place(place: &Place) -> (r: bool)
    ensures
        r == is_temp(*place),
{
    match &place.identifier.name {
        None => true,
        Some(name) => is_temp_var_name(name.as_str()),
    }
}

/// The name an identifier is printed with: its name, or `t<id>`.
pub open spec fn display_name(x: Identifier) -> Seq<char> {
    match x.name {
        Some(n) => n@,
        None => "t"@ + decimal(x.id.0 as nat),
    }
}

/// The printed name of an identifier.
pub fn identifier_display_name(identifier: &Identifier) -> (r: String)
    ensures
        r@ == display_name(*identifier),
{
    match &identifier.name {
        Some(name) => name.clone(),
        None => {
            let mut s = String::from_str("t");
            push_decimal(&mut s, identifier.id.0);
            s
        },
    }
}

/// The printed name of a place.
pub fn place_name(place: &Place) -> (r: String)
    ensures
        r@ == display_name(place.identifier),
{
    identifier_display_name(&place.identifier)
}

/// The text of a dependency path: `.p` or `?.p` for each entry.
pub open spec fn path_text(path: Seq<crate::hir::types::DependencyPathEntry>) -> Seq<char>
    decreases path.len(),
{
    if path.len() == 0 {
        Seq::empty()
    } else {
        path_text(path.drop_last()) + (if path.last().optional { "?."@ } else { "."@ }) + path.last().property@
    }
}

/// A dependency as it is printed: its root's name, then its path, for
/// example `props.x?.y`.
pub fn dependency_display_name(dep: &ReactiveScopeDependency) -> (r: String)
    ensures
        r@ == display_name(dep.identifier) + path_text(dep.path@),
{
    let mut result = identifier_display_name(&dep.identifier);
    let ghost base = result@;
    let mut i: usize = 0;
    while i < dep.path.len()
        invariant
            i <= dep.path@.len(),
            result@ == base + path_text(dep.path@.take(i as int)),
        decreases dep.path.len() - i,
    {
        proof {
            assert(dep.path@.take(i + 1).drop_last() =~= dep.path@.take(i as int));
            reveal_strlit("?.");
            reveal_strlit(".");
        }
        if dep.path[i].optional {
            result.append("?.");
        } else {
            result.append(".");
        }
        result.append(dep.path[i].property.as_str());
        proof {
            assert(result@ =~= base + path_text(dep.path@.take(i + 1)));
        }
        i = i + 1;
    }
    proof {
        assert(dep.path@.take(i as int) =~= dep.path@);
    }
    result
}

/// The operator text of a binary operator.
pub open spec fn binary_op_text(op: BinaryOp) -> Seq<char> {
    match op {
        BinaryOp::Add => "+"@,
        BinaryOp::Sub => "-"@,
        BinaryOp::Mul => "*"@,
        BinaryOp::Div => "/"@,
        BinaryOp::Mod => "%"@,
        BinaryOp::Exp => "**"@,
        BinaryOp::BitwiseAnd => "&"@,
        BinaryOp::BitwiseOr => "|"@,
        BinaryOp::BitwiseXor => "^"@,
        BinaryOp::ShiftLeft => "<<"@,
        BinaryOp::ShiftRight => ">>"@,
        BinaryOp::UnsignedShiftRight => ">>>"@,
        BinaryOp::EqEq => "=="@,
        BinaryOp::NotEq => "!="@,
        BinaryOp::StrictEq => "==="@,
        BinaryOp::StrictNotEq => "!=="@,
        BinaryOp::Lt => "<"@,
        BinaryOp::LtEq => "<="@,
        BinaryOp::Gt => ">"@,
        BinaryOp::GtEq => ">="@,
        BinaryOp::In => "in"@,
        BinaryOp::InstanceOf => "instanceof"@,
        BinaryOp::NullishCoalescing => "??"@,
    }
}

/// The JavaScript text of a binary operator.
pub fn binary_op_str(op: BinaryOp) -> (r: &'static str)
    ensures
        r@ == binary_op_text(op),
{
    match op {
        BinaryOp::Add => "+",
        BinaryOp::Sub => "-",
        BinaryOp::Mul => "*",
        BinaryOp::Div => "/",
        BinaryOp::Mod => "%",
        BinaryOp::Exp => "**",
        BinaryOp::BitwiseAnd => "&",
        BinaryOp::BitwiseOr => "|",
        BinaryOp::BitwiseXor => "^",
        BinaryOp::ShiftLeft => "<<",
        BinaryOp::ShiftRight => ">>",
        BinaryOp::UnsignedShiftRight => ">>>",
        BinaryOp::EqEq => "==",
        BinaryOp::NotEq => "!=",
        BinaryOp::StrictEq => "===",
        BinaryOp::StrictNotEq => "!==",
        BinaryOp::Lt => "<",
        BinaryOp::LtEq => "<=",
        BinaryOp::Gt => ">",
        BinaryOp::GtEq => ">=",
        BinaryOp::In => "in",
        BinaryOp::InstanceOf => "instanceof",
        BinaryOp::NullishCoalescing => "??",
    }
}

/// The operator text of a unary operator, with a trailing space for the
/// keyword operators.
pub open spec fn unary_op_text(op: UnaryOp) -> Seq<char> {
    match op {
        UnaryOp::Minus => "-"@,
        UnaryOp::Plus => "+"@,
        UnaryOp::Not => "!"@,
        UnaryOp::BitwiseNot => "~"@,
        UnaryOp::TypeOf => "typeof "@,
        UnaryOp::Void => "void "@,
        UnaryOp::Delete => "delete "@,
    }
}

/// The JavaScript text of a unary operator.
pub fn unary_op_str(op: UnaryOp) -> (r: &'static str)
    ensures
        r@ == unary_op_text(op),
{
    match op {
        UnaryOp::Minus => "-",
        UnaryOp::Plus => "+",
        UnaryOp::Not => "!",
        UnaryOp::BitwiseNot => "~",
        UnaryOp::TypeOf => "typeof ",
        UnaryOp::Void => "void ",
        UnaryOp::Delete => "delete ",
    }
}

// ---------------------------------------------------------------------------
// Text replacement
// ---------------------------------------------------------------------------

/// `p` occurs in `s` at position `k`.
pub open spec fn occurs_at(s: Seq<char>, p: Seq<char>, k: int) -> bool {
    0 <= k && k + p.len() <= s.len() && s.subrange(k, k + p.len()) == p
}

/// `s` with every occurrence of the non-empty `p`, left to right and not
/// overlapping, replaced by `r` (as `str::replace` does).
pub open spec fn replaced(s: Seq<char>, p: Seq<char>, r: Seq<char>) -> Seq<char>
    decreases s.len(),
{
    if p.len() == 0 || s.len() == 0 {
        s
    } else if occurs_at(s, p, 0) {
        r + replaced(s.skip(p.len() as int), p, r)
    } else {
        seq![s[0]] + replaced(s.skip(1), p, r)
    }
}

fn matches_at(cs: &Vec<char>, ps: &Vec<char>, k: usize) -> (r: bool)
    ensures
        r == occurs_at(cs@, ps@, k as int),
{
    if ps.len() > cs.len() || k > cs.len() - ps.len() {
        return false;
    }
    let mut j: usize = 0;
    while j < ps.len()
        invariant
            j <= ps@.len(),
            k + ps@.len() <= cs@.len(),
            forall|m: int| 0 <= m < j ==> cs@[k + m] == ps@[m],
        decreases ps.len() - j,
    {
        assert(k + j < cs.len());
        if cs[k + j] != ps[j] {
            proof {
                assert(cs@.subrange(k as int, k + ps@.len())[j as int] == cs@[k + j]);
            }
            return false;
        }
        j = j + 1;
    }
    proof {
        assert(cs@.subrange(k as int, k + ps@.len()) =~= ps@);
    }
    true
}

fn append_str(out: &mut String, s: &str)
    ensures
        final(out)@ == old(out)@ + s@,
{
    out.append(s);
}

/// `s` with every occurrence of `pat` replaced by `rep`.
pub fn replace_str(s: &str, pat: &str, rep: &str) -> (r: String)
    requires
        pat@.len() > 0,
    ensures
        r@ == replaced(s@, pat@, rep@),
{
    let cs = str_chars(s);
    let ps = str_chars(pat);
    let mut out = String::new();
    let mut i: usize = 0;
    proof {
        assert(cs@.skip(0) =~= cs@);
        assert(out@ + replaced(cs@, ps@, rep@) =~= replaced(cs@, ps@, rep@));
    }
    while i < cs.len()
        invariant
            i <= cs@.len(),
            cs@ == s@,
            ps@ == pat@,
            ps@.len() > 0,
            out@ + replaced(cs@.skip(i as int), ps@, rep@) == replaced(s@, pat@, rep@),
        decreases cs.len() - i,
    {
        let ghost rest = cs@.skip(i as int);
        if matches_at(&cs, &ps, i) {
            proof {
                assert(rest.subrange(0, ps@.len() as int) =~= cs@.subrange(i as int, i + ps@.len()));
                assert(occurs_at(rest, ps@, 0));
                assert(rest.skip(ps@.len() as int) =~= cs@.skip(i + ps@.len()));
                assert(out@ + rep@ + replaced(cs@.skip(i + ps@.len()), ps@, rep@) =~= out@ + replaced(rest, ps@, rep@));
            }
            append_str(&mut out, rep);
            i = i + ps.len();
        } else {
            proof {
                if occurs_at(rest, ps@, 0) {
                    assert(rest.subrange(0, ps@.len() as int) =~= cs@.subrange(i as int, i + ps@.len()));
                }
                assert(rest[0] == cs@[i as int]);
                assert(rest.skip(1) =~= cs@.skip(i + 1));
                assert(out@.push(cs@[i as int]) + replaced(cs@.skip(i + 1), ps@, rep@) =~= out@ + replaced(rest, ps@, rep@));
            }
            push_char(&mut out, cs[i]);
            i = i + 1;
        }
    }
    proof {
        assert(cs@.skip(i as int) =~= Seq::<char>::empty());
        assert(out@ + Seq::<char>::empty() =~= out@);
    }
    out
}

/// Format an object property key for output: quoted (with `\` and `"`
/// escaped) unless it is a plain identifier.
pub fn format_object_key(name: &str) -> (r: String)
    ensures
        r@ == (if is_identifier(name@) {
            name@
        } else {
            "\""@ + replaced(replaced(name@, "\\"@, "\\\\"@), "\""@, "\\\""@) + "\""@
        }),
{
    if needs_object_key_quoting(name) {
        proof {
            reveal_strlit("\\");
            reveal_strlit("\"");
        }
        let escaped_backslashes = replace_str(name, "\\", "\\\\");
        let escaped = replace_str(escaped_backslashes.as_str(), "\"", "\\\"");
        let mut out = String::from_str("\"");
        out.append(escaped.as_str());
        out.append("\"");
        out
    } else {
        String::from_str(name)
    }
}

// ---------------------------------------------------------------------------
// JSX text
// ---------------------------------------------------------------------------

/// A double-quoted string literal.
pub open spec fn is_quoted(s: Seq<char>) -> bool {
    s.len() >= 2 && s[0] == '"' && s.last() == '"'
}

/// Whether an expression text is a string literal (from JSX text or a
/// string constant).
pub fn is_jsx_text_str(s: &str) -> (r: bool)
    ensures
        r == is_quoted(s@),
{
    let n = s.unicode_len();
    n >= 2 && s.get_char(0) == '"' && s.get_char(n - 1) == '"'
}

/// `s` without its surrounding double quotes, if it has them.
pub open spec fn unquoted(s: Seq<char>) -> Seq<char> {
    if is_quoted(s) { s.subrange(1, s.len() - 1) } else { s }
}

/// Strip the surrounding double quotes from a string literal.
pub fn strip_string_quotes(s: &str) -> (r: &str)
    ensures
        r@ == unquoted(s@),
{
    if is_jsx_text_str(s) {
        let n = s.unicode_len();
        s.substring_char(1, n - 1)
    } else {
        s
    }
}

/// The value part of a JSX attribute: `="text"` for a string literal,
/// nothing for `true`, `={expr}` otherwise.
pub fn jsx_attr_value_str(resolved: &str) -> (r: String)
    ensures
        r@ == (if is_quoted(resolved@) {
            "="@ + resolved@
        } else if resolved@ == "true"@ {
            Seq::<char>::empty()
        } else {
            "={"@ + resolved@ + "}"@
        }),
{
    if is_jsx_text_str(resolved) {
        let mut out = String::from_str("=");
        out.append(resolved);
        out
    } else if String::from_str(resolved) == String::from_str("true") {
        String::new()
    } else {
        let mut out = String::from_str("={");
        out.append(resolved);
        out.append("}");
        out
    }
}

/// The tag of a JSX element: an intrinsic element's name without quotes,
/// any other expression as it is.
pub fn jsx_tag_name(resolved: &str) -> (r: &str)
    ensures
        r@ == unquoted(resolved@),
{
    if is_jsx_text_str(resolved) {
        strip_string_quotes(resolved)
    } else {
        resolved
    }
}

/// The raw text of a JSX text child: quotes stripped and the escapes
/// `\"`, `\\`, `\n`, `\r` undone, in that order.
pub open spec fn jsx_raw_text(s: Seq<char>) -> Seq<char> {
    let a = replaced(unquoted(s), "\\\""@, "\""@);
    let b = replaced(a, "\\\\"@, "\\"@);
    let c = replaced(b, "\\n"@, "\n"@);
    replaced(c, "\\r"@, "\r"@)
}

/// A JSX child as it is embedded in an element: a string literal as raw
/// text, a nested element as it is, anything else as `{expr}`.
pub fn jsx_child_str(resolved: &str) -> (r: String)
    ensures
        r@ == (if is_quoted(resolved@) {
            jsx_raw_text(resolved@)
        } else if resolved@.len() > 0 && resolved@[0] == '<' {
            resolved@
        } else {
            "{"@ + resolved@ + "}"@
        }),
{
    if is_jsx_text_str(resolved) {
        proof {
            reveal_strlit("\\\"");
            reveal_strlit("\\\\");
            reveal_strlit("\\n");
            reveal_strlit("\\r");
        }
        let raw = strip_string_quotes(resolved);
        let a = replace_str(raw, "\\\"", "\"");
        let b = replace_str(a.as_str(), "\\\\", "\\");
        let c = replace_str(b.as_str(), "\\n", "\n");
        replace_str(c.as_str(), "\\r", "\r")
    } else if resolved.unicode_len() > 0 && resolved.get_char(0) == '<' {
        String::from_str(resolved)
    } else {
        let mut out = String::from_str("{");
        out.append(resolved);
        out.append("}");
        out
    }
}

/// Whether a quoted string literal holds a plain identifier, so that
/// `obj["foo"]` can be printed as `obj.foo`.
pub fn is_dotable_string_literal(s: &str) -> (r: bool)
    ensures
        r == (s@.len() >= 3 && is_quoted(s@) && is_identifier(s@.subrange(1, s@.len() - 1))),
{
    let cs = str_chars(s);
    let n = cs.len();
    if n < 3 || cs[0] != '"' || cs[n - 1] != '"' {
        return false;
    }
    chars_form_identifier(&cs, 1, n - 1)
}

/// The identifier inside a quoted string literal.
pub fn extract_dotable_id(s: &str) -> (r: &str)
    requires
        is_quoted(s@),
    ensures
        r@ == s@.subrange(1, s@.len() - 1),
{
    let n = s.unicode_len();
    s.substring_char(1, n - 1)
}

// ---------------------------------------------------------------------------
// Renaming in generated code
// ---------------------------------------------------------------------------

/// The first position at or after `pos` where the non-empty `p` occurs in `s`.
pub open spec fn find_from(s: Seq<char>, p: Seq<char>, pos: int) -> Option<int>
    decreases s.len() - pos,
{
    if pos < 0 || p.len() == 0 || pos + p.len() > s.len() {
        None
    } else if occurs_at(s, p, pos) {
        Some(pos)
    } else {
        find_from(s, p, pos + 1)
    }
}

pub proof fn lemma_find_from(s: Seq<char>, p: Seq<char>, pos: int)
    ensures
        find_from(s, p, pos) matches Some(k) ==> pos <= k && k + p.len() <= s.len() && occurs_at(s, p, k),
    decreases s.len() - pos,
{
    if !(pos < 0 || p.len() == 0 || pos + p.len() > s.len()) && !occurs_at(s, p, pos) {
        lemma_find_from(s, p, pos + 1);
    }
}

/// The occurrence of a name of length `n` at `k` stands alone: no
/// identifier character right before or right after it.
pub open spec fn stands_alone(s: Seq<char>, k: int, n: int) -> bool {
    &&& (k == 0 || !is_ident_char(s[k - 1]))
    &&& (k + n >= s.len() || !is_ident_char(s[k + n]))
}

/// `s` from `pos` on with each standalone occurrence of `old` replaced by
/// `new`; occurrences inside longer identifiers are kept.
pub open spec fn word_replaced(s: Seq<char>, old: Seq<char>, new: Seq<char>, pos: int) -> Seq<char>
    decreases s.len() - pos,
{
    if old.len() == 0 || pos < 0 || pos > s.len() {
        Seq::empty()
    } else {
        match find_from(s, old, pos) {
            None => s.subrange(pos, s.len() as int),
            Some(k) => {
                proof {
                    lemma_find_from(s, old, pos);
                }
                (if stands_alone(s, k, old.len() as int) {
                    s.subrange(pos, k) + new
                } else {
                    s.subrange(pos, k + old.len())
                }) + word_replaced(s, old, new, k + old.len())
            },
        }
    }
}

fn find_occurrence(cs: &Vec<char>, ps: &Vec<char>, pos: usize) -> (r: Option<usize>)
    requires
        ps@.len() > 0,
        pos <= cs@.len(),
    ensures
        r matches Some(k) ==> find_from(cs@, ps@, pos as int) == Some(k as int),
        r is None ==> find_from(cs@, ps@, pos as int) is None,
{
    let mut k: usize = pos;
    while k < cs.len()
        invariant
            pos <= k <= cs@.len(),
            ps@.len() > 0,
            find_from(cs@, ps@, pos as int) == find_from(cs@, ps@, k as int),
        decreases cs.len() - k,
    {
        if matches_at(cs, ps, k) {
            return Some(k);
        }
        if ps.len() > cs.len() - k {
            return None;
        }
        k = k + 1;
    }
    None
}

fn push_chars(out: &mut String, cs: &Vec<char>, from: usize, to: usize)
    requires
        from <= to <= cs@.len(),
    ensures
        final(out)@ == old(out)@ + cs@.subrange(from as int, to as int),
{
    let mut i: usize = from;
    while i < to
        invariant
            from <= i <= to <= cs@.len(),
            out@ == old(out)@ + cs@.subrange(from as int, i as int),
        decreases to - i,
    {
        push_char(out, cs[i]);
        proof {
            assert(cs@.subrange(from as int, i + 1) =~= cs@.subrange(from as int, i as int).push(cs@[i as int]));
        }
        i = i + 1;
    }
}

fn chars_equal(a: &Vec<char>, b: &Vec<char>) -> (r: bool)
    ensures
        r == (a@ == b@),
{
    if a.len() != b.len() {
        return false;
    }
    let mut i: usize = 0;
    while i < a.len()
        invariant
            i <= a@.len(),
            a@.len() == b@.len(),
            forall|k: int| 0 <= k < i ==> a@[k] == b@[k],
        decreases a.len() - i,
    {
        if a[i] != b[i] {
            return false;
        }
        i = i + 1;
    }
    proof {
        assert(a@ =~= b@);
    }
    true
}

/// Replace a name in generated code where it stands alone as an
/// identifier: `t7` is replaced in `x = t7;` but not inside `t70` or `t7x`.
pub fn replace_identifier_in_output(output: &str, old_name: &str, new_name: &str) -> (r: String)
    ensures
        r@ == (if old_name@.len() == 0 || old_name@ == new_name@ {
            output@
        } else {
            word_replaced(output@, old_name@, new_name@, 0)
        }),
{
    let cs = str_chars(output);
    let olds = str_chars(old_name);
    let news = str_chars(new_name);
    if olds.len() == 0 || chars_equal(&olds, &news) {
        return String::from_str(output);
    }
    let ghost s = cs@;
    let mut result = String::new();
    let mut search_start: usize = 0;
    proof {
        assert(result@ + word_replaced(s, olds@, news@, 0) =~= word_replaced(s, olds@, news@, 0));
    }
    loop
        invariant
            search_start <= cs@.len(),
            s == cs@,
            cs@ == output@,
            olds@.len() > 0,
            olds@ != news@,
            olds@ == old_name@,
            news@ == new_name@,
            result@ + word_replaced(s, olds@, news@, search_start as int) == word_replaced(s, olds@, news@, 0),
        decreases cs@.len() - search_start,
    {
        let found = find_occurrence(&cs, &olds, search_start);
        match found {
            Some(abs_pos) => {
                proof {
                    lemma_find_from(s, olds@, search_start as int);
                }
                assert(abs_pos + olds.len() <= cs.len());
                let after_pos = abs_pos + olds.len();
                let before_ok = abs_pos == 0 || !ident_char(cs[abs_pos - 1]);
                let after_ok = after_pos >= cs.len() || !ident_char(cs[after_pos]);
                let ghost before = result@;
                if before_ok && after_ok {
                    push_chars(&mut result, &cs, search_start, abs_pos);
                    append_str(&mut result, new_name);
                } else {
                    push_chars(&mut result, &cs, search_start, after_pos);
                }
                proof {
                    assert(stands_alone(s, abs_pos as int, olds@.len() as int) == (before_ok && after_ok));
                    let piece = if before_ok && after_ok {
                        s.subrange(search_start as int, abs_pos as int) + news@
                    } else {
                        s.subrange(search_start as int, after_pos as int)
                    };
                    assert(result@ =~= before + piece);
                    assert(word_replaced(s, olds@, news@, search_start as int) == piece + word_replaced(s, olds@, news@, after_pos as int));
                    assert(before + piece + word_replaced(s, olds@, news@, after_pos as int) =~= before + (piece + word_replaced(s, olds@, news@, after_pos as int)));
                }
                search_start = after_pos;
            },
            None => {
                push_chars(&mut result, &cs, search_start, cs.len());
                proof {
                    assert(word_replaced(s, olds@, news@, search_start as int) == s.subrange(search_start as int, s.len() as int));
                    assert(result@ == word_replaced(s, olds@, news@, 0));
                }
                return result;
            },
        }
    }
}

// ---------------------------------------------------------------------------
// Output with position tracking
// ---------------------------------------------------------------------------

/// The (line, column) reached from `pos` after writing `t`: a newline moves
/// to column 0 of the next line, any other character one column right.
pub open spec fn advance(pos: (int, int), t: Seq<char>) -> (int, int)
    decreases t.len(),
{
    if t.len() == 0 {
        pos
    } else {
        let p = advance(pos, t.drop_last());
        if t.last() == '\n' { (p.0 + 1, 0) } else { (p.0, p.1 + 1) }
    }
}

proof fn lemma_advance_bounds(pos: (int, int), t: Seq<char>)
    ensures
        pos.0 <= advance(pos, t).0 <= pos.0 + t.len(),
        0 <= pos.1 ==> 0 <= advance(pos, t).1 <= pos.1 + t.len(),
    decreases t.len(),
{
    if t.len() > 0 {
        lemma_advance_bounds(pos, t.drop_last());
    }
}

/// Generated code with the current output position and the source map
/// being built alongside.
pub struct CodegenContext {
    pub output: String,
    pub source_map: SourceMap,
    pub line: u32,
    pub column: u32,
}

impl CodegenContext {
    /// An empty output at line 0, column 0, with an empty source map.
    pub fn new() -> (r: Self)
        ensures
            r.output@ == Seq::<char>::empty(),
            r.source_map.mappings@ == Seq::<SourceMapEntry>::empty(),
            r.line == 0,
            r.column == 0,
    {
        CodegenContext { output: String::new(), source_map: SourceMap::new(), line: 0, column: 0 }
    }

    /// Write `s` to the output and move the position past it. The position
    /// must stay within `u32`.
    pub fn write(&mut self, s: &str)
        requires
            old(self).line + s@.len() <= u32::MAX,
            old(self).column + s@.len() <= u32::MAX,
        ensures
            final(self).output@ == old(self).output@ + s@,
            (final(self).line as int, final(self).column as int) == advance((old(self).line as int, old(self).column as int), s@),
            final(self).source_map == old(self).source_map,
    {
        let cs = str_chars(s);
        let ghost start = (self.line as int, self.column as int);
        let ghost out0 = self.output@;
        let mut i: usize = 0;
        while i < cs.len()
            invariant
                i <= cs@.len(),
                cs@ == s@,
                start == (old(self).line as int, old(self).column as int),
                out0 == old(self).output@,
                old(self).line + s@.len() <= u32::MAX,
                old(self).column + s@.len() <= u32::MAX,
                self.output@ == out0 + cs@.take(i as int),
                (self.line as int, self.column as int) == advance(start, cs@.take(i as int)),
                self.source_map == old(self).source_map,
            decreases cs.len() - i,
        {
            proof {
                assert(cs@.take(i + 1).drop_last() =~= cs@.take(i as int));
                lemma_advance_bounds(start, cs@.take(i as int));
            }
            let ch = cs[i];
            push_char(&mut self.output, ch);
            if ch == '\n' {
                self.line = self.line + 1;
                self.column = 0;
            } else {
                self.column = self.column + 1;
            }
            proof {
                assert(self.output@ =~= out0 + cs@.take(i + 1));
            }
            i = i + 1;
        }
        proof {
            assert(cs@.take(i as int) =~= cs@);
        }
    }

    /// Record a mapping from the current output position to the position
    /// of byte offset `span.start` in `source`; a span at 0..0 stands for no
    /// position and is skipped. Line and column are cut to `u32` as the
    /// source map stores them.
    pub fn map_from_span(&mut self, span: SourceLocation, source: &str)
        ensures
            final(self).output == old(self).output,
            final(self).line == old(self).line,
            final(self).column == old(self).column,
            final(self).source_map.mappings@ == (if span.start == 0 && span.end == 0 {
                old(self).source_map.mappings@
            } else {
                old(self).source_map.mappings@.push(
                    SourceMapEntry {
                        generated_line: old(self).line,
                        generated_column: old(self).column,
                        original_line: line_col_at(source@, span.start as int).0 as u32,
                        original_column: line_col_at(source@, span.start as int).1 as u32,
                    },
                )
            }),
    {
        if span.start == 0 && span.end == 0 {
            return;
        }
        let (orig_line, orig_col) = byte_offset_to_line_col(source, span.start as usize);
        self.source_map.add_mapping(self.line, self.column, orig_line as u32, orig_col as u32);
    }
}

/// The number of bytes of the UTF-8 encoding of `c`.
pub open spec fn utf8_len(c: char) -> int {
    if (c as u32) < 0x80 {
        1
    } else if (c as u32) < 0x800 {
        2
    } else if (c as u32) < 0x10000 {
        3
    } else {
        4
    }
}

/// The number of leading characters of `s` that start before byte
/// `offset`, counting from character `i` at byte `b`.
pub open spec fn chars_before(s: Seq<char>, offset: int, i: int, b: int) -> int
    decreases s.len() - i,
{
    if i < 0 || i >= s.len() || b >= offset {
        i
    } else {
        chars_before(s, offset, i + 1, b + utf8_len(s[i]))
    }
}

/// The 0-based (line, column) of byte `offset` of `s`: the position after
/// the characters that start before it.
pub open spec fn line_col_at(s: Seq<char>, offset: int) -> (int, int) {
    advance((0, 0), s.take(chars_before(s, offset, 0, 0)))
}

fn char_utf8_len(c: char) -> (r: usize)
    ensures
        r == utf8_len(c),
{
    let x = c as u32;
    if x < 0x80 {
        1
    } else if x < 0x800 {
        2
    } else if x < 0x10000 {
        3
    } else {
        4
    }
}

proof fn lemma_chars_before_bounds(s: Seq<char>, offset: int, i: int, b: int)
    requires
        0 <= i <= s.len(),
    ensures
        i <= chars_before(s, offset, i, b) <= s.len(),
    decreases s.len() - i,
{
    if i < s.len() && b < offset {
        lemma_chars_before_bounds(s, offset, i + 1, b + utf8_len(s[i]));
    }
}

/// Convert a byte offset in the source text to a 0-based (line, column).
pub fn byte_offset_to_line_col(source: &str, offset: usize) -> (r: (usize, usize))
    ensures
        (r.0 as int, r.1 as int) == line_col_at(source@, offset as int),
{
    let cs = str_chars(source);
    let ghost s = cs@;
    let mut line: usize = 0;
    let mut col: usize = 0;
    let mut i: usize = 0;
    let mut b: usize = 0;
    proof {
        lemma_chars_before_bounds(s, offset as int, 0, 0);
    }
    while i < cs.len() && b < offset
        invariant
            i <= cs@.len(),
            s == cs@,
            s == source@,
            b <= offset,
            i <= chars_before(s, offset as int, 0, 0),
            chars_before(s, offset as int, 0, 0) == chars_before(s, offset as int, i as int, b as int),
            (line as int, col as int) == advance((0, 0), s.take(i as int)),
        decreases cs.len() - i,
    {
        proof {
            assert(s.take(i + 1).drop_last() =~= s.take(i as int));
            lemma_chars_before_bounds(s, offset as int, i + 1, b + utf8_len(s[i as int]));
            lemma_advance_bounds((0, 0), s.take(i as int));
        }
        let ch = cs[i];
        if ch == '\n' {
            line = line + 1;
            col = 0;
        } else {
            col = col + 1;
        }
        let w = char_utf8_len(ch);
        let ghost full = b + w;
        b = if w <= offset - b { b + w } else { offset };
        proof {
            if full > offset {
                assert(chars_before(s, offset as int, i + 1, full) == i + 1);
                assert(chars_before(s, offset as int, i + 1, b as int) == i + 1);
            }
        }
        i = i + 1;
    }
    proof {
        assert(chars_before(s, offset as int, i as int, b as int) == i);
    }
    (line, col)
}

/// The (line, column) of the end of the output, recomputed from the text.
/// The output must have at most `u32::MAX` characters.
pub fn recompute_position(ctx: &mut CodegenContext)
    requires
        old(ctx).output@.len() <= u32::MAX,
    ensures
        final(ctx).output == old(ctx).output,
        final(ctx).source_map == old(ctx).source_map,
        (final(ctx).line as int, final(ctx).column as int) == advance((0, 0), old(ctx).output@),
{
    let cs = str_chars(ctx.output.as_str());
    let mut line: u32 = 0;
    let mut col: u32 = 0;
    let mut i: usize = 0;
    while i < cs.len()
        invariant
            i <= cs@.len(),
            cs@ == ctx.output@,
            cs@.len() <= u32::MAX,
            (line as int, col as int) == advance((0, 0), cs@.take(i as int)),
        decreases cs.len() - i,
    {
        proof {
            assert(cs@.take(i + 1).drop_last() =~= cs@.take(i as int));
            lemma_advance_bounds((0, 0), cs@.take(i as int));
        }
        if cs[i] == '\n' {
            line = line + 1;
            col = 0;
        } else {
            col = col + 1;
        }
        i = i + 1;
    }
    proof {
        assert(cs@.take(i as int) =~= cs@);
    }
    ctx.line = line;
    ctx.column = col;
}

// ---------------------------------------------------------------------------
// Splicing compiled functions into the source
// ---------------------------------------------------------------------------

/// The character index at which byte offset `b` falls, walking the
/// characters of `s` from index `i` at byte `acc` and adding their UTF-8
/// widths; `None` when `b` falls inside a character or past the end.
pub open spec fn byte_index(s: Seq<char>, b: int, i: int, acc: int) -> Option<int>
    decreases s.len() - i,
{
    if acc == b {
        Some(i)
    } else if acc > b || i < 0 || i >= s.len() {
        None
    } else {
        byte_index(s, b, i + 1, acc + utf8_len(s[i]))
    }
}

/// `String::replace_range(start..end, rep)` on byte offsets: `None` where
/// it panics (an offset off a character boundary or past the end, or
/// `start > end`).
pub open spec fn replace_bytes(s: Seq<char>, start: int, end: int, rep: Seq<char>) -> Option<Seq<char>> {
    match (byte_index(s, start, 0, 0), byte_index(s, end, 0, 0)) {
        (Some(i), Some(j)) => if start <= end {
            Some(s.take(i) + rep + s.skip(j))
        } else {
            None
        },
        _ => None,
    }
}

/// The character index of byte offset `b` of `cs`, if it is a boundary.
fn char_index_at(cs: &Vec<char>, b: u32) -> (r: Option<usize>)
    ensures
        match r {
            Some(k) => byte_index(cs@, b as int, 0, 0) == Some(k as int) && k <= cs@.len(),
            None => byte_index(cs@, b as int, 0, 0) is None,
        },
{
    let mut i: usize = 0;
    let mut acc: u64 = 0;
    while i < cs.len() && acc < b as u64
        invariant
            i <= cs@.len(),
            acc <= b as u64 + 4,
            byte_index(cs@, b as int, 0, 0) == byte_index(cs@, b as int, i as int, acc as int),
        decreases cs.len() - i,
    {
        let w = char_utf8_len(cs[i]);
        acc = acc + w as u64;
        i = i + 1;
    }
    if acc == b as u64 {
        Some(i)
    } else {
        None
    }
}

/// `cs[..i] + rep + cs[j..]`.
fn splice_chars(cs: &Vec<char>, i: usize, j: usize, rep: &Vec<char>) -> (r: Vec<char>)
    requires
        i <= cs@.len(),
        j <= cs@.len(),
    ensures
        r@ == cs@.take(i as int) + rep@ + cs@.skip(j as int),
{
    let mut out: Vec<char> = Vec::new();
    let mut k: usize = 0;
    while k < i
        invariant
            k <= i <= cs@.len(),
            out@ == cs@.take(k as int),
        decreases i - k,
    {
        out.push(cs[k]);
        k = k + 1;
        proof {
            assert(out@ =~= cs@.take(k as int));
        }
    }
    let mut m: usize = 0;
    while m < rep.len()
        invariant
            m <= rep@.len(),
            out@ == cs@.take(i as int) + rep@.take(m as int),
        decreases rep.len() - m,
    {
        out.push(rep[m]);
        m = m + 1;
        proof {
            assert(out@ =~= cs@.take(i as int) + rep@.take(m as int));
        }
    }
    let mut q: usize = j;
    proof {
        assert(rep@.take(m as int) =~= rep@);
    }
    while q < cs.len()
        invariant
            j <= q <= cs@.len(),
            out@ == cs@.take(i as int) + rep@ + cs@.subrange(j as int, q as int),
        decreases cs.len() - q,
    {
        out.push(cs[q]);
        q = q + 1;
        proof {
            assert(out@ =~= cs@.take(i as int) + rep@ + cs@.subrange(j as int, q as int));
        }
    }
    proof {
        assert(cs@.subrange(j as int, q as int) =~= cs@.skip(j as int));
    }
    out
}

/// Insert edit `e` (start, end, index) into edits sorted by start,
/// descending: before the first edit that starts before it, so that edits
/// with equal starts keep their order.
pub open spec fn insert_by_start(sorted: Seq<(u32, u32, usize)>, e: (u32, u32, usize)) -> Seq<(u32, u32, usize)>
    decreases sorted.len(),
{
    if sorted.len() == 0 {
        seq![e]
    } else if sorted[0].0 < e.0 {
        seq![e] + sorted
    } else {
        seq![sorted[0]] + insert_by_start(sorted.skip(1), e)
    }
}

/// The edits sorted by start, descending, equal starts in their given
/// order (a stable sort, as `sort_by` with the reversed comparison).
pub open spec fn sort_by_start_desc(es: Seq<(u32, u32, usize)>) -> Seq<(u32, u32, usize)>
    decreases es.len(),
{
    if es.len() == 0 {
        Seq::empty()
    } else {
        insert_by_start(sort_by_start_desc(es.drop_last()), es.last())
    }
}

proof fn lemma_insert_by_start_at(sorted: Seq<(u32, u32, usize)>, e: (u32, u32, usize), p: int)
    requires
        0 <= p <= sorted.len(),
        forall|q: int| 0 <= q < p ==> (#[trigger] sorted[q]).0 >= e.0,
        p == sorted.len() || sorted[p].0 < e.0,
    ensures
        insert_by_start(sorted, e) == sorted.take(p) + seq![e] + sorted.skip(p),
    decreases sorted.len(),
{
    if sorted.len() == 0 {
        assert(sorted.take(p) + seq![e] + sorted.skip(p) =~= seq![e]);
    } else if p == 0 {
        assert(sorted.take(p) + seq![e] + sorted.skip(p) =~= seq![e] + sorted);
    } else {
        let t = sorted.skip(1);
        assert forall|q: int| 0 <= q < p - 1 implies (#[trigger] t[q]).0 >= e.0 by {
            assert(t[q] == sorted[q + 1]);
        }
        lemma_insert_by_start_at(t, e, p - 1);
        assert(seq![sorted[0]] + (t.take(p - 1) + seq![e] + t.skip(p - 1)) =~= sorted.take(p) + seq![e] + sorted.skip(p));
    }
}

/// Sort the edits by start, descending, stably.
fn sort_edits(es: &Vec<(u32, u32, usize)>, Ghost(n): Ghost<int>) -> (r: Vec<(u32, u32, usize)>)
    requires
        forall|k: int| 0 <= k < es@.len() ==> (#[trigger] es@[k]).2 < n,
    ensures
        r@ == sort_by_start_desc(es@),
        forall|k: int| 0 <= k < r@.len() ==> (#[trigger] r@[k]).2 < n,
{
    let mut out: Vec<(u32, u32, usize)> = Vec::new();
    let mut k: usize = 0;
    proof {
        assert(es@.take(0) =~= Seq::<(u32, u32, usize)>::empty());
    }
    while k < es.len()
        invariant
            k <= es@.len(),
            out@ == sort_by_start_desc(es@.take(k as int)),
            forall|q: int| 0 <= q < es@.len() ==> (#[trigger] es@[q]).2 < n,
            forall|q: int| 0 <= q < out@.len() ==> (#[trigger] out@[q]).2 < n,
        decreases es.len() - k,
    {
        let e = es[k];
        let mut p: usize = 0;
        while p < out.len() && out[p].0 >= e.0
            invariant
                p <= out@.len(),
                forall|q: int| 0 <= q < p ==> (#[trigger] out@[q]).0 >= e.0,
            decreases out.len() - p,
        {
            p = p + 1;
        }
        let ghost before = out@;
        proof {
            lemma_insert_by_start_at(before, e, p as int);
        }
        out.insert(p, e);
        proof {
            assert(out@ =~= before.take(p as int) + seq![e] + before.skip(p as int));
            assert(es@.take(k + 1).drop_last() =~= es@.take(k as int));
            assert(es@.take(k + 1).last() == e);
            assert forall|q: int| 0 <= q < out@.len() implies (#[trigger] out@[q]).2 < n by {
                if q < p {
                    assert(out@[q] == before[q]);
                } else if q > p {
                    assert(out@[q] == before[q - 1]);
                }
            }
        }
        k = k + 1;
    }
    proof {
        assert(es@.take(k as int) =~= es@);
    }
    out
}

/// Apply the edits in `order` in turn: edit (start, end, k) replaces bytes
/// `start..end` by `reps[k]`; `None` where a replacement panics.
pub open spec fn apply_edits(s: Seq<char>, order: Seq<(u32, u32, usize)>, reps: Seq<Seq<char>>) -> Option<Seq<char>>
    decreases order.len(),
{
    if order.len() == 0 {
        Some(s)
    } else {
        match replace_bytes(s, order[0].0 as int, order[0].1 as int, reps[order[0].2 as int]) {
            Some(t) => apply_edits(t, order.skip(1), reps),
            None => None,
        }
    }
}

// ---------------------------------------------------------------------------
// Lines
// ---------------------------------------------------------------------------

/// The index of the first `'\n'` of `s`, or its length.
pub open spec fn first_newline(s: Seq<char>) -> int
    decreases s.len(),
{
    if s.len() == 0 || s[0] == '\n' {
        0
    } else {
        1 + first_newline(s.skip(1))
    }
}

pub open spec fn drop_cr(l: Seq<char>) -> Seq<char> {
    if l.len() > 0 && l.last() == '\r' {
        l.drop_last()
    } else {
        l
    }
}

/// `str::lines`: the pieces of `s` ended by `'\n'` (a `'\r'` just before
/// it dropped), and a last piece without one when it is not empty.
pub open spec fn split_lines(s: Seq<char>) -> Seq<Seq<char>>
    decreases s.len(),
{
    if s.len() == 0 {
        Seq::empty()
    } else {
        let k = first_newline(s);
        if k < 0 || k >= s.len() {
            seq![s]
        } else {
            seq![drop_cr(s.take(k))] + split_lines(s.skip(k + 1))
        }
    }
}

proof fn lemma_first_newline(s: Seq<char>, k: int)
    requires
        0 <= k <= s.len(),
        forall|q: int| 0 <= q < k ==> s[q] != '\n',
        k == s.len() || s[k] == '\n',
    ensures
        first_newline(s) == k,
    decreases k,
{
    if k > 0 {
        let t = s.skip(1);
        assert forall|q: int| 0 <= q < k - 1 implies t[q] != '\n' by {
            assert(t[q] == s[q + 1]);
        }
        lemma_first_newline(t, k - 1);
    }
}

/// `char::is_whitespace`: the Unicode `White_Space` property.
pub open spec fn is_white_space(c: char) -> bool {
    let x = c as u32;
    ||| 9 <= x <= 13
    ||| x == 32
    ||| x == 0x85
    ||| x == 0xa0
    ||| x == 0x1680
    ||| 0x2000 <= x <= 0x200a
    ||| x == 0x2028
    ||| x == 0x2029
    ||| x == 0x202f
    ||| x == 0x205f
    ||| x == 0x3000
}

fn white_space(c: char) -> (r: bool)
    ensures
        r == is_white_space(c),
{
    let x = c as u32;
    (9 <= x && x <= 13) || x == 32 || x == 0x85 || x == 0xa0 || x == 0x1680 || (0x2000 <= x && x <= 0x200a)
        || x == 0x2028 || x == 0x2029 || x == 0x202f || x == 0x205f || x == 0x3000
}

/// The first index at or after `i` that is not white space (or the length).
pub open spec fn skip_white(l: Seq<char>, i: int) -> int
    decreases l.len() - i,
{
    if 0 <= i < l.len() && is_white_space(l[i]) {
        skip_white(l, i + 1)
    } else {
        i
    }
}

/// The end of `l[a..e]` with trailing white space removed.
pub open spec fn trim_end_at(l: Seq<char>, a: int, e: int) -> int
    decreases e - a,
{
    if a < e && is_white_space(l[e - 1]) {
        trim_end_at(l, a, e - 1)
    } else {
        e
    }
}

/// `str::trim`.
pub open spec fn trim(l: Seq<char>) -> Seq<char> {
    let a = skip_white(l, 0);
    l.subrange(a, trim_end_at(l, a, l.len() as int))
}

pub open spec fn starts_with(t: Seq<char>, p: Seq<char>) -> bool {
    t.len() >= p.len() && t.take(p.len() as int) == p
}

/// A line is kept unless it is a gating directive comment.
pub open spec fn keep_line(l: Seq<char>) -> bool {
    !starts_with(trim(l), "// @gating"@) && !starts_with(trim(l), "// @dynamicGating"@)
}

pub open spec fn kept_lines(ls: Seq<Seq<char>>) -> Seq<Seq<char>>
    decreases ls.len(),
{
    if ls.len() == 0 {
        Seq::empty()
    } else if keep_line(ls.last()) {
        kept_lines(ls.drop_last()).push(ls.last())
    } else {
        kept_lines(ls.drop_last())
    }
}

/// The lines joined with `'\n'` between them.
pub open spec fn join_lines(ls: Seq<Seq<char>>) -> Seq<char>
    decreases ls.len(),
{
    if ls.len() == 0 {
        Seq::empty()
    } else if ls.len() == 1 {
        ls[0]
    } else {
        join_lines(ls.drop_last()) + seq!['\n'] + ls.last()
    }
}

/// `s` without its gating directive lines, keeping a final newline.
pub open spec fn strip_gating_lines(s: Seq<char>) -> Seq<char> {
    let body = join_lines(kept_lines(split_lines(s)));
    if s.len() > 0 && s.last() == '\n' {
        body.push('\n')
    } else {
        body
    }
}

proof fn lemma_skip_white_bounds(l: Seq<char>, i: int)
    requires
        0 <= i <= l.len(),
    ensures
        i <= skip_white(l, i) <= l.len(),
    decreases l.len() - i,
{
    if i < l.len() && is_white_space(l[i]) {
        lemma_skip_white_bounds(l, i + 1);
    }
}

proof fn lemma_trim_end_bounds(l: Seq<char>, a: int, e: int)
    requires
        a <= e,
    ensures
        a <= trim_end_at(l, a, e) <= e,
    decreases e - a,
{
    if a < e && is_white_space(l[e - 1]) {
        lemma_trim_end_bounds(l, a, e - 1);
    }
}

/// Whether `cs[a..b]` starts with `p`.
fn has_prefix(cs: &Vec<char>, a: usize, b: usize, p: &Vec<char>) -> (r: bool)
    requires
        a <= b <= cs@.len(),
    ensures
        r == starts_with(cs@.subrange(a as int, b as int), p@),
{
    if b - a < p.len() {
        return false;
    }
    let mut k: usize = 0;
    while k < p.len()
        invariant
            a <= b <= cs@.len(),
            b - a >= p@.len(),
            k <= p@.len(),
            forall|q: int| 0 <= q < k ==> cs@[a + q] == p@[q],
        decreases p.len() - k,
    {
        if cs[a + k] != p[k] {
            proof {
                assert(cs@.subrange(a as int, b as int).take(p@.len() as int)[k as int] != p@[k as int]);
            }
            return false;
        }
        k = k + 1;
    }
    proof {
        assert(cs@.subrange(a as int, b as int).take(p@.len() as int) =~= p@);
    }
    true
}

/// Whether line `cs[i..e]` is kept.
fn keeps_line(cs: &Vec<char>, i: usize, e: usize) -> (r: bool)
    requires
        i <= e <= cs@.len(),
    ensures
        r == keep_line(cs@.subrange(i as int, e as int)),
{
    let ghost l = cs@.subrange(i as int, e as int);
    let mut a: usize = i;
    proof {
        lemma_skip_white_bounds(l, 0);
    }
    while a < e && white_space(cs[a])
        invariant
            i <= a <= e <= cs@.len(),
            l == cs@.subrange(i as int, e as int),
            skip_white(l, 0) == skip_white(l, a - i),
        decreases e - a,
    {
        a = a + 1;
    }
    let ghost la = a - i;
    proof {
        assert(skip_white(l, la) == la);
        lemma_trim_end_bounds(l, la, l.len() as int);
    }
    let mut z: usize = e;
    while z > a && white_space(cs[z - 1])
        invariant
            i <= a <= z <= e <= cs@.len(),
            l == cs@.subrange(i as int, e as int),
            la == a - i,
            trim_end_at(l, la, l.len() as int) == trim_end_at(l, la, z - i),
        decreases z - a,
    {
        z = z - 1;
    }
    proof {
        assert(trim_end_at(l, la, z - i) == z - i);
        assert(trim(l) =~= cs@.subrange(a as int, z as int));
    }
    let g = str_chars("// @gating");
    let dg = str_chars("// @dynamicGating");
    !has_prefix(cs, a, z, &g) && !has_prefix(cs, a, z, &dg)
}

/// `str::lines`, then the lines that are not gating directives joined with
/// `'\n'`, and a final `'\n'` where `cs` ends with one.
fn strip_gating(cs: &Vec<char>) -> (r: Vec<char>)
    ensures
        r@ == strip_gating_lines(cs@),
{
    let ghost s = cs@;
    let n = cs.len();
    let mut out: Vec<char> = Vec::new();
    let mut any = false;
    let mut i: usize = 0;
    let ghost mut done: Seq<Seq<char>> = Seq::empty();
    proof {
        assert(s.skip(0) =~= s);
        assert(done + split_lines(s) =~= split_lines(s));
    }
    while i < n
        invariant
            i <= n,
            n == s.len(),
            s == cs@,
            split_lines(s) == done + split_lines(s.skip(i as int)),
            out@ == join_lines(kept_lines(done)),
            any == (kept_lines(done).len() > 0),
        decreases n - i,
    {
        let mut k: usize = i;
        while k < n && cs[k] != '\n'
            invariant
                i <= k <= n,
                n == cs@.len(),
                forall|q: int| i <= q < k ==> cs@[q] != '\n',
            decreases n - k,
        {
            k = k + 1;
        }
        let ghost t = s.skip(i as int);
        proof {
            assert forall|q: int| 0 <= q < k - i implies t[q] != '\n' by {
                assert(t[q] == s[i + q]);
            }
            if k < n {
                assert(t[k - i] == s[k as int]);
            }
            lemma_first_newline(t, k - i);
        }
        let e: usize = if k < n && k > i && cs[k - 1] == '\r' { k - 1 } else { k };
        let ghost line = s.subrange(i as int, e as int);
        let next: usize = if k < n { k + 1 } else { n };
        proof {
            if k < n {
                assert(drop_cr(t.take(k - i)) =~= line);
                assert(t.skip(k - i + 1) =~= s.skip(k + 1));
            } else {
                assert(t =~= line);
                assert(s.skip(n as int) =~= Seq::<char>::empty());
            }
            assert(split_lines(t) =~= seq![line] + split_lines(s.skip(next as int)));
            assert(done + (seq![line] + split_lines(s.skip(next as int))) =~= done.push(line) + split_lines(s.skip(next as int)));
            assert(done.push(line).drop_last() =~= done);
        }
        let keep = keeps_line(cs, i, e);
        if keep {
            let ghost kd = kept_lines(done);
            if any {
                out.push('\n');
            }
            let mut m: usize = i;
            let ghost base = out@;
            while m < e
                invariant
                    i <= m <= e <= cs@.len(),
                    out@ == base + cs@.subrange(i as int, m as int),
                decreases e - m,
            {
                out.push(cs[m]);
                m = m + 1;
                proof {
                    assert(out@ =~= base + cs@.subrange(i as int, m as int));
                }
            }
            proof {
                let kn = kd.push(line);
                assert(kn.drop_last() =~= kd);
                if kd.len() == 0 {
                    assert(out@ =~= line);
                } else {
                    assert(out@ =~= join_lines(kd) + seq!['\n'] + line);
                }
            }
            any = true;
        }
        proof {
            done = done.push(line);
        }
        i = next;
    }
    proof {
        assert(s.skip(n as int) =~= Seq::<char>::empty());
        assert(done + Seq::<Seq<char>>::empty() =~= done);
    }
    if n > 0 && cs[n - 1] == '\n' {
        out.push('\n');
    }
    out
}

/// The compiler-runtime import line.
pub open spec fn runtime_import() -> Seq<char> {
    "import { c as _c } from \"react/compiler-runtime\";\n"@
}

/// The edits (start, end, index) of the compiled functions, in order.
pub open spec fn indexed_edits(cf: Seq<(SourceLocation, String)>) -> Seq<(u32, u32, usize)> {
    Seq::new(cf.len(), |k: int| (cf[k].0.start, cf[k].0.end, k as usize))
}

pub open spec fn replacements(cf: Seq<(SourceLocation, String)>) -> Seq<Seq<char>> {
    Seq::new(cf.len(), |k: int| cf[k].1@)
}

pub open spec fn opt_view(o: Option<&str>) -> Option<Seq<char>> {
    match o {
        Some(g) => Some(g@),
        None => None,
    }
}

/// The source with the compiled functions spliced in: unchanged when there
/// are none; else the runtime import, the gating import where there is one,
/// and the source with each function's byte range replaced by its code, the
/// edits applied from the last start to the first (equal starts in their
/// given order), and with a gating import, the gating directive lines
/// dropped. `None` where a replacement panics.
pub open spec fn compiled_source(original: Seq<char>, cf: Seq<(SourceLocation, String)>, gating_import: Option<Seq<char>>) -> Option<Seq<char>> {
    if cf.len() == 0 {
        Some(original)
    } else {
        match apply_edits(original, sort_by_start_desc(indexed_edits(cf)), replacements(cf)) {
            Some(src) => Some(match gating_import {
                Some(g) => runtime_import() + g + strip_gating_lines(src),
                None => runtime_import() + src,
            }),
            None => None,
        }
    }
}

/// Splice the compiled functions into the original source (byte ranges and
/// their code) and add the runtime import; `gating_import` is the import
/// line of the gating configuration, where one is given. Every range must
/// lie on character boundaries when its edit is applied, with its start
/// not after its end.
pub fn apply_compilation(
    original_source: &str,
    compiled_functions: &Vec<(SourceLocation, String)>,
    gating_import: Option<&str>,
) -> (r: String)
    requires
        compiled_source(original_source@, compiled_functions@, opt_view(gating_import)) is Some,
    ensures
        Some(r@) == compiled_source(original_source@, compiled_functions@, opt_view(gating_import)),
{
    match try_apply_compilation(original_source, compiled_functions, gating_import) {
        Some(t) => t,
        None => {
            proof {
                assert(false);
            }
            String::new()
        },
    }
}

/// Splice the compiled functions into the original source as
/// `apply_compilation` does, or `None` where a replacement would not lie on
/// character boundaries or would start after its end.
pub fn try_apply_compilation(
    original_source: &str,
    compiled_functions: &Vec<(SourceLocation, String)>,
    gating_import: Option<&str>,
) -> (r: Option<String>)
    ensures
        match r {
            Some(t) => Some(t@) == compiled_source(original_source@, compiled_functions@, opt_view(gating_import)),
            None => compiled_source(original_source@, compiled_functions@, opt_view(gating_import)) is None,
        },
{
    if compiled_functions.len() == 0 {
        return Some(String::from_str(original_source));
    }
    let ghost cf = compiled_functions@;
    let ghost reps = replacements(cf);
    let n = compiled_functions.len();
    let mut es: Vec<(u32, u32, usize)> = Vec::new();
    let mut k: usize = 0;
    while k < n
        invariant
            k <= n,
            n == compiled_functions@.len(),
            cf == compiled_functions@,
            es@ == indexed_edits(cf).take(k as int),
        decreases n - k,
    {
        let loc = compiled_functions[k].0;
        es.push((loc.start, loc.end, k));
        k = k + 1;
        proof {
            assert(es@ =~= indexed_edits(cf).take(k as int));
        }
    }
    proof {
        assert(es@ =~= indexed_edits(cf));
    }
    let order = sort_edits(&es, Ghost(n as int));
    let ghost s0 = original_source@;
    let mut cur = str_chars(original_source);
    let mut q: usize = 0;
    proof {
        assert(order@.skip(0) =~= order@);
    }
    while q < order.len()
        invariant
            q <= order@.len(),
            n == compiled_functions@.len(),
            cf == compiled_functions@,
            reps == replacements(cf),
            forall|x: int| 0 <= x < order@.len() ==> (#[trigger] order@[x]).2 < n,
            apply_edits(cur@, order@.skip(q as int), reps) == apply_edits(s0, order@, reps),
            order@ == sort_by_start_desc(indexed_edits(cf)),
            s0 == original_source@,
            n > 0,
        decreases order.len() - q,
    {
        let (start, end, idx) = order[q];
        let ghost rest = order@.skip(q as int);
        proof {
            assert(rest[0] == order@[q as int]);
            assert(rest.skip(1) =~= order@.skip(q + 1));
        }
        let rep = str_chars(compiled_functions[idx].1.as_str());
        let a = char_index_at(&cur, start);
        let b = char_index_at(&cur, end);
        let (i, j) = match (a, b) {
            (Some(i), Some(j)) => (i, j),
            _ => {
                proof {
                    assert(replace_bytes(cur@, start as int, end as int, reps[idx as int]) is None);
                    assert(apply_edits(cur@, rest, reps) is None);
                }
                return None;
            },
        };
        if start > end {
            proof {
                assert(replace_bytes(cur@, start as int, end as int, reps[idx as int]) is None);
                assert(apply_edits(cur@, rest, reps) is None);
            }
            return None;
        }
        cur = splice_chars(&cur, i, j, &rep);
        q = q + 1;
    }
    proof {
        assert(order@.skip(q as int) =~= Seq::<(u32, u32, usize)>::empty());
    }
    let mut result = generate_import_statement();
    match gating_import {
        Some(g) => {
            append_str(&mut result, g);
            let body = strip_gating(&cur);
            push_chars(&mut result, &body, 0, body.len());
            proof {
                assert(body@.subrange(0, body@.len() as int) =~= body@);
            }
        },
        None => {
            push_chars(&mut result, &cur, 0, cur.len());
            proof {
                assert(cur@.subrange(0, cur@.len() as int) =~= cur@);
            }
        },
    }
    Some(result)
}

} // verus!
