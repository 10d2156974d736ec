use vstd::prelude::*;
use vstd::string::StringSliceAdditionalSpecFns;

verus! {

/// Why loading a mesh failed.
#[derive(Clone, Copy, Debug, PartialEq, Eq, Structural)]
pub enum LoadError {
    /// The source could not be opened or read.
    NotFound,
    /// A face names a vertex that has not been read yet.
    BadIndex,
}

/// A face: three 0-based vertex indices, and how many vertices had been read when
/// the face was (which decides the scale its corners are normalized by).
#[derive(Clone, Copy, Debug, PartialEq, Eq, Structural)]
pub struct Face {
    pub a: usize,
    pub b: usize,
    pub c: usize,
    pub seen: usize,
}

/// The three coordinate words of a vertex line, as written in the source.
pub struct VertexText {
    pub x: Vec<u8>,
    pub y: Vec<u8>,
    pub z: Vec<u8>,
}

impl View for VertexText {
    type V = (Seq<u8>, Seq<u8>, Seq<u8>);

    open spec fn view(&self) -> (Seq<u8>, Seq<u8>, Seq<u8>) {
        (self.x@, self.y@, self.z@)
    }
}

pub open spec fn is_space(b: u8) -> bool {
    b == 32 || b == 9 || b == 13 || b == 10
}

pub open spec fn is_digit(b: u8) -> bool {
    48 <= b <= 57
}

pub open spec fn all_digits(s: Seq<u8>) -> bool {
    forall|i: int| 0 <= i < s.len() ==> is_digit(#[trigger] s[i])
}

/// The words of `s` (maximal runs of non-space bytes), in order; `cur` is the
/// part of a word already read before `s`.
pub open spec fn split_words(s: Seq<u8>, cur: Seq<u8>) -> Seq<Seq<u8>>
    decreases s.len(),
{
    if s.len() == 0 {
        if cur.len() == 0 {
            seq![]
        } else {
            seq![cur]
        }
    } else if is_space(s[0]) {
        if cur.len() == 0 {
            split_words(s.drop_first(), seq![])
        } else {
            seq![cur] + split_words(s.drop_first(), seq![])
        }
    } else {
        split_words(s.drop_first(), cur.push(s[0]))
    }
}

/// The whitespace-separated words of a line.
pub open spec fn words(s: Seq<u8>) -> Seq<Seq<u8>> {
    split_words(s, seq![])
}

/// The position of the first byte of `s` that is `a` or `b`, or the length of `s`.
pub open spec fn first_of(s: Seq<u8>, a: u8, b: u8) -> int
    decreases s.len(),
{
    if s.len() == 0 {
        0
    } else if s[0] == a || s[0] == b {
        0
    } else {
        1 + first_of(s.drop_first(), a, b)
    }
}

/// The number written in decimal digits `d`.
pub open spec fn decimal(d: Seq<u8>) -> nat
    decreases d.len(),
{
    if d.len() == 0 {
        0
    } else {
        decimal(d.drop_last()) * 10 + (d.last() - 48) as nat
    }
}

pub open spec fn to_lower(b: u8) -> u8 {
    if 65 <= b <= 90 {
        (b + 32) as u8
    } else {
        b
    }
}

/// `w` equals the lower-case word `lit`, ignoring the case of `w`.
pub open spec fn eq_ignore_case(w: Seq<u8>, lit: Seq<u8>) -> bool {
    w.len() == lit.len() && forall|i: int| 0 <= i < w.len() ==> to_lower(#[trigger] w[i]) == lit[i]
}

/// Digits, with at most one `.` among them and at least one digit.
pub open spec fn is_mantissa(m: Seq<u8>) -> bool {
    let d = first_of(m, 46, 46);
    if d == m.len() {
        m.len() > 0 && all_digits(m)
    } else {
        all_digits(m.take(d)) && all_digits(m.skip(d + 1)) && m.len() >= 2
    }
}

pub open spec fn strip_sign(w: Seq<u8>) -> Seq<u8> {
    if w.len() > 0 && (w[0] == 43 || w[0] == 45) {
        w.drop_first()
    } else {
        w
    }
}

/// An optional sign and at least one digit.
pub open spec fn is_exponent(x: Seq<u8>) -> bool {
    strip_sign(x).len() > 0 && all_digits(strip_sign(x))
}

/// A mantissa, then optionally `e` or `E` and an exponent.
pub open spec fn is_number(b: Seq<u8>) -> bool {
    let k = first_of(b, 101, 69);
    is_mantissa(b.take(k)) && (k == b.len() || is_exponent(b.skip(k + 1)))
}

/// A decimal floating-point literal as `f64`'s `FromStr` accepts it: an optional
/// sign, then `inf`, `infinity`, `nan` (in any case) or a number.
pub open spec fn is_float_literal(w: Seq<u8>) -> bool {
    let b = strip_sign(w);
    ||| eq_ignore_case(b, seq![105u8, 110, 102])
    ||| eq_ignore_case(b, seq![105u8, 110, 102, 105, 110, 105, 116, 121])
    ||| eq_ignore_case(b, seq![110u8, 97, 110])
    ||| is_number(b)
}

pub open spec fn at_most_one_slash(s: Seq<u8>) -> bool {
    forall|i: int, j: int| 0 <= i < j < s.len() ==> !(#[trigger] s[i] == 47 && #[trigger] s[j] == 47)
}

/// A face group: a vertex index in decimal digits, optionally followed by `/` and
/// up to two `/`-separated attributes, which are ignored.
pub open spec fn is_face_group(g: Seq<u8>) -> bool {
    let k = first_of(g, 47, 47);
    k > 0 && all_digits(g.take(k)) && (k == g.len() || at_most_one_slash(g.skip(k + 1)))
}

/// The vertex index that a face group names.
pub open spec fn group_index(g: Seq<u8>) -> nat {
    decimal(g.take(first_of(g, 47, 47)))
}

/// What a line of the mesh source says.
pub enum LineKind {
    /// A vertex, with its three coordinate words.
    Vertex(Seq<u8>, Seq<u8>, Seq<u8>),
    /// A face, with its three 1-based vertex indices.
    Face(nat, nat, nat),
    /// Anything else: ignored.
    Other,
}

/// A vertex line is the word `v` and three floating-point literals; a face line is
/// the word `f` and three face groups. Any other line says nothing.
pub open spec fn classify(line: Seq<u8>) -> LineKind {
    let w = words(line);
    if w.len() == 4 && w[0] == seq![118u8] && is_float_literal(w[1]) && is_float_literal(w[2])
        && is_float_literal(w[3]) {
        LineKind::Vertex(w[1], w[2], w[3])
    } else if w.len() == 4 && w[0] == seq![102u8] && is_face_group(w[1]) && is_face_group(w[2])
        && is_face_group(w[3]) {
        LineKind::Face(group_index(w[1]), group_index(w[2]), group_index(w[3]))
    } else {
        LineKind::Other
    }
}

/// What a mesh holds so far: the vertices read, and the faces resolved against them.
pub struct MeshView {
    pub vertices: Seq<(Seq<u8>, Seq<u8>, Seq<u8>)>,
    pub faces: Seq<Face>,
}

pub open spec fn empty_mesh() -> MeshView {
    MeshView { vertices: seq![], faces: seq![] }
}

/// Reading one line: a vertex is appended; a face whose indices all name vertices
/// read so far (1-based) is appended with 0-based indices, else loading fails;
/// any other line changes nothing.
pub open spec fn read_step(m: MeshView, line: Seq<u8>) -> Result<MeshView, LoadError> {
    match classify(line) {
        LineKind::Vertex(x, y, z) => Ok(MeshView { vertices: m.vertices.push((x, y, z)), ..m }),
        LineKind::Face(a, b, c) => {
            let n = m.vertices.len();
            if 1 <= a <= n && 1 <= b <= n && 1 <= c <= n {
                Ok(
                    MeshView {
                        faces: m.faces.push(
                            Face { a: (a - 1) as usize, b: (b - 1) as usize, c: (c - 1) as usize, seen: n as usize },
                        ),
                        ..m
                    },
                )
            } else {
                Err(LoadError::BadIndex)
            }
        },
        LineKind::Other => Ok(m),
    }
}

/// Loading a whole source, line after line, stopping at the first error.
pub open spec fn load(lines: Seq<Seq<u8>>) -> Result<MeshView, LoadError>
    decreases lines.len(),
{
    if lines.len() == 0 {
        Ok(empty_mesh())
    } else {
        match load(lines.drop_last()) {
            Ok(m) => read_step(m, lines.last()),
            Err(e) => Err(e),
        }
    }
}

/// Inserting a line that is neither a vertex nor a face anywhere in a source does
/// not change what loading it gives.
pub proof fn lemma_other_lines_ignored(lines: Seq<Seq<u8>>, k: int, extra: Seq<u8>)
    requires
        0 <= k <= lines.len(),
        classify(extra) is Other,
    ensures
        load(lines.insert(k, extra)) == load(lines),
    decreases lines.len(),
{
    let longer = lines.insert(k, extra);
    if k == lines.len() {
        assert(longer.drop_last() =~= lines);
    } else {
        lemma_other_lines_ignored(lines.drop_last(), k, extra);
        assert(longer.drop_last() =~= lines.drop_last().insert(k, extra));
        assert(longer.last() == lines.last());
    }
}

/// Every face of a loaded mesh names vertices read before it: its indices are
/// below the vertex count it records, which is at most the number of vertices.
pub proof fn lemma_faces_name_earlier_vertices(lines: Seq<Seq<u8>>)
    requires
        load(lines) is Ok,
        lines.len() < usize::MAX,
    ensures
        load(lines)->Ok_0.vertices.len() <= lines.len(),
        forall|i: int|
            0 <= i < load(lines)->Ok_0.faces.len() ==> {
                let f = #[trigger] load(lines)->Ok_0.faces[i];
                &&& f.a < f.seen
                &&& f.b < f.seen
                &&& f.c < f.seen
                &&& f.seen <= load(lines)->Ok_0.vertices.len()
            },
    decreases lines.len(),
{
    if lines.len() > 0 {
        let prefix = lines.drop_last();
        lemma_faces_name_earlier_vertices(prefix);
        let m = load(prefix)->Ok_0;
        let next = load(lines)->Ok_0;
        assert(read_step(m, lines.last()) == load(lines));
        assert forall|i: int| 0 <= i < next.faces.len() implies {
            let f = #[trigger] next.faces[i];
            &&& f.a < f.seen
            &&& f.b < f.seen
            &&& f.c < f.seen
            &&& f.seen <= next.vertices.len()
        } by {
            if i < m.faces.len() {
                assert(next.faces[i] == m.faces[i]);
            }
        }
    }
}

/// `v`, capped at `usize::MAX`.
pub open spec fn capped(v: nat) -> usize {
    if v <= usize::MAX {
        v as usize
    } else {
        usize::MAX
    }
}

proof fn lemma_first_of_props(s: Seq<u8>, a: u8, b: u8)
    ensures
        0 <= first_of(s, a, b) <= s.len(),
        forall|j: int| 0 <= j < first_of(s, a, b) ==> #[trigger] s[j] != a && s[j] != b,
        first_of(s, a, b) < s.len() ==> s[first_of(s, a, b)] == a || s[first_of(s, a, b)] == b,
    decreases s.len(),
{
    if s.len() > 0 && s[0] != a && s[0] != b {
        lemma_first_of_props(s.drop_first(), a, b);
        assert forall|j: int| 0 <= j < first_of(s, a, b) implies #[trigger] s[j] != a && s[j] != b by {
            if j > 0 {
                assert(s[j] == s.drop_first()[j - 1]);
            }
        }
    }
}

proof fn lemma_first_of_at(s: Seq<u8>, a: u8, b: u8, i: int)
    requires
        0 <= i <= s.len(),
        forall|j: int| 0 <= j < i ==> #[trigger] s[j] != a && s[j] != b,
        i == s.len() || s[i] == a || s[i] == b,
    ensures
        first_of(s, a, b) == i,
    decreases i,
{
    if i > 0 {
        assert(s[0] != a && s[0] != b);
        assert forall|j: int| 0 <= j < i - 1 implies #[trigger] s.drop_first()[j] != a && s.drop_first()[j] != b by {
            assert(s.drop_first()[j] == s[j + 1]);
        }
        lemma_first_of_at(s.drop_first(), a, b, i - 1);
    }
}

/// The position of the first `a` or `b` in `w[lo..hi]`, or `hi`.
fn find_either(w: &Vec<u8>, lo: usize, hi: usize, a: u8, b: u8) -> (r: usize)
    requires
        lo <= hi <= w@.len(),
    ensures
        r == lo + first_of(w@.subrange(lo as int, hi as int), a, b),
        lo <= r <= hi,
{
    let ghost sub = w@.subrange(lo as int, hi as int);
    let mut i: usize = lo;
    while i < hi && w[i] != a && w[i] != b
        invariant
            lo <= i <= hi <= w@.len(),
            sub == w@.subrange(lo as int, hi as int),
            forall|j: int| 0 <= j < i - lo ==> #[trigger] sub[j] != a && sub[j] != b,
        decreases hi - i,
    {
        assert(sub[i - lo] == w@[i as int]);
        i = i + 1;
    }
    proof {
        if i < hi {
            assert(sub[i - lo] == w@[i as int]);
        }
        lemma_first_of_at(sub, a, b, i - lo);
    }
    i
}

/// Whether `w[lo..hi]` is all decimal digits.
fn digits_only(w: &Vec<u8>, lo: usize, hi: usize) -> (r: bool)
    requires
        lo <= hi <= w@.len(),
    ensures
        r == all_digits(w@.subrange(lo as int, hi as int)),
{
    let ghost sub = w@.subrange(lo as int, hi as int);
    let mut i: usize = lo;
    while i < hi
        invariant
            lo <= i <= hi <= w@.len(),
            sub == w@.subrange(lo as int, hi as int),
            forall|j: int| 0 <= j < i - lo ==> is_digit(#[trigger] sub[j]),
        decreases hi - i,
    {
        assert(sub[i - lo] == w@[i as int]);
        if w[i] < 48 || w[i] > 57 {
            return false;
        }
        i = i + 1;
    }
    true
}

/// The number that the digits `w[lo..hi]` write, capped at `usize::MAX`.
fn parse_index(w: &Vec<u8>, lo: usize, hi: usize) -> (r: usize)
    requires
        lo <= hi <= w@.len(),
        all_digits(w@.subrange(lo as int, hi as int)),
    ensures
        r == capped(decimal(w@.subrange(lo as int, hi as int))),
{
    let mut acc: usize = 0;
    let mut i: usize = lo;
    while i < hi
        invariant
            lo <= i <= hi <= w@.len(),
            all_digits(w@.subrange(lo as int, hi as int)),
            acc == capped(decimal(w@.subrange(lo as int, i as int))),
        decreases hi - i,
    {
        let ghost before = w@.subrange(lo as int, i as int);
        let ghost after = w@.subrange(lo as int, i + 1);
        assert(after.drop_last() =~= before);
        assert(after.last() == w@[i as int]);
        assert(is_digit(w@.subrange(lo as int, hi as int)[i - lo]));
        let digit: usize = (w[i] - 48) as usize;
        assert(decimal(after) == decimal(before) * 10 + digit);
        if acc == usize::MAX || acc > (usize::MAX - digit) / 10 {
            acc = usize::MAX;
        } else {
            acc = acc * 10 + digit;
        }
        i = i + 1;
    }
    acc
}

/// `b` in lower case.
fn lowered(b: u8) -> (r: u8)
    ensures
        r == to_lower(b),
{
    if 65 <= b && b <= 90 {
        b + 32
    } else {
        b
    }
}

/// Whether `w[lo..hi]` is a mantissa.
fn mantissa_at(w: &Vec<u8>, lo: usize, hi: usize) -> (r: bool)
    requires
        lo <= hi <= w@.len(),
    ensures
        r == is_mantissa(w@.subrange(lo as int, hi as int)),
{
    let ghost m = w@.subrange(lo as int, hi as int);
    proof {
        lemma_first_of_props(m, 46, 46);
    }
    let d = find_either(w, lo, hi, 46, 46);
    if d == hi {
        hi > lo && digits_only(w, lo, hi)
    } else {
        assert(m.take(d - lo) =~= w@.subrange(lo as int, d as int));
        assert(m.skip(d - lo + 1) =~= w@.subrange(d + 1, hi as int));
        digits_only(w, lo, d) && digits_only(w, d + 1, hi) && hi - lo >= 2
    }
}

/// Whether `w[lo..hi]` is an exponent.
fn exponent_at(w: &Vec<u8>, lo: usize, hi: usize) -> (r: bool)
    requires
        lo <= hi <= w@.len(),
    ensures
        r == is_exponent(w@.subrange(lo as int, hi as int)),
{
    let ghost x = w@.subrange(lo as int, hi as int);
    let start = if lo < hi && (w[lo] == 43 || w[lo] == 45) {
        lo + 1
    } else {
        lo
    };
    assert(strip_sign(x) =~= w@.subrange(start as int, hi as int));
    start < hi && digits_only(w, start, hi)
}

/// Whether `w[lo..hi]` is a number.
fn number_at(w: &Vec<u8>, lo: usize, hi: usize) -> (r: bool)
    requires
        lo <= hi <= w@.len(),
    ensures
        r == is_number(w@.subrange(lo as int, hi as int)),
{
    let ghost b = w@.subrange(lo as int, hi as int);
    proof {
        lemma_first_of_props(b, 101, 69);
    }
    let k = find_either(w, lo, hi, 101, 69);
    assert(b.take(k - lo) =~= w@.subrange(lo as int, k as int));
    if k == hi {
        mantissa_at(w, lo, k)
    } else {
        assert(b.skip(k - lo + 1) =~= w@.subrange(k + 1, hi as int));
        mantissa_at(w, lo, k) && exponent_at(w, k + 1, hi)
    }
}

/// Whether `w` is a floating-point literal.
fn float_word(w: &Vec<u8>) -> (r: bool)
    ensures
        r == is_float_literal(w@),
{
    let len = w.len();
    let lo: usize = if len > 0 && (w[0] == 43 || w[0] == 45) {
        1
    } else {
        0
    };
    let ghost b = strip_sign(w@);
    assert(b =~= w@.subrange(lo as int, len as int));
    let n = len - lo;
    let inf = n == 3 && lowered(w[lo]) == 105 && lowered(w[lo + 1]) == 110 && lowered(w[lo + 2]) == 102;
    let infinity = n == 8 && lowered(w[lo]) == 105 && lowered(w[lo + 1]) == 110 && lowered(w[lo + 2]) == 102
        && lowered(w[lo + 3]) == 105 && lowered(w[lo + 4]) == 110 && lowered(w[lo + 5]) == 105
        && lowered(w[lo + 6]) == 116 && lowered(w[lo + 7]) == 121;
    let nan = n == 3 && lowered(w[lo]) == 110 && lowered(w[lo + 1]) == 97 && lowered(w[lo + 2]) == 110;
    proof {
        let l_inf = seq![105u8, 110, 102];
        let l_infinity = seq![105u8, 110, 102, 105, 110, 105, 116, 121];
        let l_nan = seq![110u8, 97, 110];
        if eq_ignore_case(b, l_inf) {
            assert(to_lower(b[0]) == l_inf[0] && to_lower(b[1]) == l_inf[1] && to_lower(b[2]) == l_inf[2]);
        }
        if inf {
            assert forall|i: int| 0 <= i < b.len() implies to_lower(#[trigger] b[i]) == l_inf[i] by {
                assert(0 <= i < 3);
            }
        }
        if eq_ignore_case(b, l_nan) {
            assert(to_lower(b[0]) == l_nan[0] && to_lower(b[1]) == l_nan[1] && to_lower(b[2]) == l_nan[2]);
        }
        if nan {
            assert forall|i: int| 0 <= i < b.len() implies to_lower(#[trigger] b[i]) == l_nan[i] by {
                assert(0 <= i < 3);
            }
        }
        if eq_ignore_case(b, l_infinity) {
            assert(to_lower(b[0]) == l_infinity[0] && to_lower(b[1]) == l_infinity[1]);
            assert(to_lower(b[2]) == l_infinity[2] && to_lower(b[3]) == l_infinity[3]);
            assert(to_lower(b[4]) == l_infinity[4] && to_lower(b[5]) == l_infinity[5]);
            assert(to_lower(b[6]) == l_infinity[6] && to_lower(b[7]) == l_infinity[7]);
        }
        if infinity {
            assert forall|i: int| 0 <= i < b.len() implies to_lower(#[trigger] b[i]) == l_infinity[i] by {
                assert(0 <= i < 8);
            }
        }
    }
    inf || infinity || nan || number_at(w, lo, len)
}

/// Whether `w[lo..hi]` holds at most one `/`.
fn one_slash_at_most(w: &Vec<u8>, lo: usize, hi: usize) -> (r: bool)
    requires
        lo <= hi <= w@.len(),
    ensures
        r == at_most_one_slash(w@.subrange(lo as int, hi as int)),
{
    let ghost s = w@.subrange(lo as int, hi as int);
    let first = find_either(w, lo, hi, 47, 47);
    proof {
        lemma_first_of_props(s, 47, 47);
    }
    if first == hi {
        assert forall|i: int, j: int| 0 <= i < j < s.len() implies !(#[trigger] s[i] == 47 && #[trigger] s[j] == 47) by {
            assert(s[i] != 47);
        }
        return true;
    }
    let second = find_either(w, first + 1, hi, 47, 47);
    let ghost rest = w@.subrange(first + 1, hi as int);
    proof {
        lemma_first_of_props(rest, 47, 47);
    }
    if second == hi {
        assert forall|i: int, j: int| 0 <= i < j < s.len() implies !(#[trigger] s[i] == 47 && #[trigger] s[j] == 47) by {
            if s[i] == 47 && s[j] == 47 {
                assert(i >= first - lo);
                assert(rest[j - (first - lo) - 1] == s[j]);
            }
        }
        true
    } else {
        assert(s[first - lo] == 47);
        assert(s[second - lo] == rest[second - first - 1]);
        assert(!(s[first - lo] == 47 && s[second - lo] == 47) == false);
        false
    }
}

/// The vertex index of face group `g`, capped at `usize::MAX`, if it is one.
fn face_group(g: &Vec<u8>) -> (r: Option<usize>)
    ensures
        r == (if is_face_group(g@) {
            Some(capped(group_index(g@)))
        } else {
            None
        }),
{
    let len = g.len();
    let k = find_either(g, 0, len, 47, 47);
    assert(g@.subrange(0, len as int) =~= g@);
    assert(g@.take(k as int) =~= g@.subrange(0, k as int));
    if k == 0 || !digits_only(g, 0, k) {
        return None;
    }
    if k < len {
        assert(g@.skip(k + 1) =~= g@.subrange(k + 1, len as int));
        if !one_slash_at_most(g, k + 1, len) {
            return None;
        }
    }
    Some(parse_index(g, 0, k))
}

/// The views of a list of byte vectors.
pub open spec fn views(v: Seq<Vec<u8>>) -> Seq<Seq<u8>> {
    v.map_values(|b: Vec<u8>| b@)
}

/// The whitespace-separated words of `line`.
fn split_line(line: &[u8]) -> (r: Vec<Vec<u8>>)
    ensures
        views(r@) == words(line@),
{
    let mut out: Vec<Vec<u8>> = Vec::new();
    let mut cur: Vec<u8> = Vec::new();
    let mut i: usize = 0;
    assert(views(out@) =~= seq![]);
    assert(line@.skip(0) =~= line@);
    assert(cur@ =~= seq![]);
    while i < line.len()
        invariant
            i <= line@.len(),
            views(out@) + split_words(line@.skip(i as int), cur@) == words(line@),
        decreases line@.len() - i,
    {
        let ghost rest = line@.skip(i as int);
        assert(rest[0] == line@[i as int]);
        assert(rest.drop_first() =~= line@.skip(i + 1));
        if line[i] == 32 || line[i] == 9 || line[i] == 13 || line[i] == 10 {
            if cur.len() > 0 {
                let ghost before = views(out@);
                let word = cur;
                cur = Vec::new();
                out.push(word);
                assert(views(out@) =~= before.push(word@));
                assert(seq![word@] + split_words(line@.skip(i + 1), seq![]) == split_words(rest, word@));
                assert(views(out@) + split_words(line@.skip(i + 1), cur@) =~= before + split_words(rest, word@));
            } else {
                assert(cur@ =~= seq![]);
            }
        } else {
            cur.push(line[i]);
        }
        i = i + 1;
    }
    assert(line@.skip(i as int) =~= seq![]);
    if cur.len() > 0 {
        let ghost before = views(out@);
        let word = cur;
        out.push(word);
        assert(views(out@) =~= before.push(word@));
        assert(views(out@) =~= before + split_words(line@.skip(i as int), word@));
    } else {
        assert(views(out@) =~= views(out@) + split_words(line@.skip(i as int), cur@));
    }
    out
}

/// Whether `w` is the one-byte word `b`.
fn is_marker(w: &Vec<u8>, b: u8) -> (r: bool)
    ensures
        r == (w@ == seq![b]),
{
    let r = w.len() == 1 && w[0] == b;
    proof {
        if r {
            assert(w@ =~= seq![b]);
        }
    }
    r
}

/// The coordinate words of `line`, if it is a vertex line.
pub fn scan_vertex(line: &str) -> (r: Option<VertexText>)
    ensures
        match classify(line.spec_bytes()) {
            LineKind::Vertex(x, y, z) => r is Some && r->0@ == (x, y, z),
            _ => r is None,
        },
{
    let mut w = split_line(line.as_bytes());
    proof {
        assert(views(w@).len() == w@.len());
    }
    if w.len() != 4 || !is_marker(&w[0], 118) {
        return None;
    }
    let ghost ws = words(line.spec_bytes());
    assert(w@[0]@ == ws[0] && w@[1]@ == ws[1] && w@[2]@ == ws[2] && w@[3]@ == ws[3]);
    if !float_word(&w[1]) || !float_word(&w[2]) || !float_word(&w[3]) {
        return None;
    }
    let z = w.pop().unwrap();
    let y = w.pop().unwrap();
    let x = w.pop().unwrap();
    Some(VertexText { x, y, z })
}

/// The vertex indices of `line` (1-based, each capped at `usize::MAX`), if it is a
/// face line.
pub fn scan_face(line: &str) -> (r: Option<(usize, usize, usize)>)
    ensures
        match classify(line.spec_bytes()) {
            LineKind::Face(a, b, c) => r == Some((capped(a), capped(b), capped(c))),
            _ => r is None,
        },
{
    let w = split_line(line.as_bytes());
    proof {
        assert(views(w@).len() == w@.len());
    }
    if w.len() != 4 || !is_marker(&w[0], 102) {
        return None;
    }
    let ghost ws = words(line.spec_bytes());
    assert(w@[0]@ == ws[0] && w@[1]@ == ws[1] && w@[2]@ == ws[2] && w@[3]@ == ws[3]);
    assert(ws[0] != seq![118u8]) by {
        assert(ws[0][0] != seq![118u8][0]);
    }
    match (face_group(&w[1]), face_group(&w[2]), face_group(&w[3])) {
        (Some(a), Some(b), Some(c)) => Some((a, b, c)),
        _ => None,
    }
}

/// A mesh read from its source line by line: the vertices so far, and the faces
/// resolved against them.
pub struct ObjModel {
    vertices: Vec<VertexText>,
    faces: Vec<Face>,
}

impl View for ObjModel {
    type V = MeshView;

    closed spec fn view(&self) -> MeshView {
        MeshView { vertices: self.vertices@.map_values(|v: VertexText| v@), faces: self.faces@ }
    }
}

impl ObjModel {
    /// A mesh with nothing read yet.
    pub fn new() -> (r: ObjModel)
        ensures
            r@ == empty_mesh(),
    {
        let r = ObjModel { vertices: Vec::new(), faces: Vec::new() };
        assert(r@.vertices =~= seq![]);
        r
    }

    /// Reads the next line of the source, as `read_step` describes. On an error the
    /// mesh is left as it was.
    pub fn read_line(&mut self, line: &str) -> (r: Result<(), LoadError>)
        requires
            old(self)@.vertices.len() < usize::MAX,
        ensures
            match read_step(old(self)@, line.spec_bytes()) {
                Ok(m) => r is Ok && final(self)@ == m,
                Err(e) => r == Err::<(), LoadError>(e) && final(self)@ == old(self)@,
            },
    {
        let ghost before = self@;
        if let Some(v) = scan_vertex(line) {
            self.vertices.push(v);
            assert(self@.vertices =~= before.vertices.push(v@));
            return Ok(());
        }
        if let Some((a, b, c)) = scan_face(line) {
            let n = self.vertices.len();
            assert(n == before.vertices.len());
            if 1 <= a && a <= n && 1 <= b && b <= n && 1 <= c && c <= n {
                self.faces.push(Face { a: a - 1, b: b - 1, c: c - 1, seen: n });
                return Ok(());
            } else {
                return Err(LoadError::BadIndex);
            }
        }
        Ok(())
    }

    pub fn vertex_count(&self) -> (r: usize)
        ensures
            r == self@.vertices.len(),
    {
        self.vertices.len()
    }

    pub fn face_count(&self) -> (r: usize)
        ensures
            r == self@.faces.len(),
    {
        self.faces.len()
    }

    /// The coordinate words of vertex `i` (0-based).
    pub fn vertex(&self, i: usize) -> (r: &VertexText)
        requires
            i < self@.vertices.len(),
        ensures
            r@ == self@.vertices[i as int],
    {
        &self.vertices[i]
    }

    /// Face `i`, in the order read.
    pub fn face(&self, i: usize) -> (r: Face)
        requires
            i < self@.faces.len(),
        ensures
            r == self@.faces[i as int],
    {
        self.faces[i]
    }
}

} // verus!
