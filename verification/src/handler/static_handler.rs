//! Parsing the request line of a static-file request and the decisions made
//! on it: which method and target were asked for, the stripping of leading
//! separators before the path-safety check, and whether a file is streamed
//! in chunks.  The socket reads and writes around these live in the
//! surrounding application.

use vstd::prelude::*;
use vstd::string::StrSliceExecFns;

verus! {

/// A byte that separates the tokens of a request line.
pub open spec fn is_space(b: u8) -> bool {
    b == 32 || b == 9
}

/// A byte that ends the request line.
pub open spec fn is_eol(b: u8) -> bool {
    b == 13 || b == 10
}

/// `j` is where a scan from `from` toward `to` first meets a line end, or
/// `to` if it never does.
pub open spec fn eol_scan_at(s: Seq<u8>, from: int, to: int, j: int) -> bool {
    &&& from <= j <= to
    &&& forall|i: int| from <= i < j ==> !is_eol(#[trigger] s[i])
    &&& j < to ==> is_eol(s[j])
}

/// `j` is where a scan from `from` toward `to` first meets a space, or `to`
/// if it never does.
pub open spec fn space_scan_at(s: Seq<u8>, from: int, to: int, j: int) -> bool {
    &&& from <= j <= to
    &&& forall|i: int| from <= i < j ==> !is_space(#[trigger] s[i])
    &&& j < to ==> is_space(s[j])
}

/// `j` is where a scan from `from` toward `to` first meets a non-space, or
/// `to` if it never does.
pub open spec fn nonspace_scan_at(s: Seq<u8>, from: int, to: int, j: int) -> bool {
    &&& from <= j <= to
    &&& forall|i: int| from <= i < j ==> is_space(#[trigger] s[i])
    &&& j < to ==> !is_space(s[j])
}

pub proof fn lemma_eol_scan_unique(s: Seq<u8>, from: int, to: int, j1: int, j2: int)
    requires
        eol_scan_at(s, from, to, j1),
        eol_scan_at(s, from, to, j2),
    ensures
        j1 == j2,
{
    if j1 < j2 {
        assert(is_eol(s[j1]) && !is_eol(s[j1]));
    }
    if j2 < j1 {
        assert(is_eol(s[j2]) && !is_eol(s[j2]));
    }
}

pub proof fn lemma_space_scan_unique(s: Seq<u8>, from: int, to: int, j1: int, j2: int)
    requires
        space_scan_at(s, from, to, j1),
        space_scan_at(s, from, to, j2),
    ensures
        j1 == j2,
{
    if j1 < j2 {
        assert(is_space(s[j1]) && !is_space(s[j1]));
    }
    if j2 < j1 {
        assert(is_space(s[j2]) && !is_space(s[j2]));
    }
}

pub proof fn lemma_nonspace_scan_unique(s: Seq<u8>, from: int, to: int, j1: int, j2: int)
    requires
        nonspace_scan_at(s, from, to, j1),
        nonspace_scan_at(s, from, to, j2),
    ensures
        j1 == j2,
{
    if j1 < j2 {
        assert(!is_space(s[j1]) && is_space(s[j1]));
    }
    if j2 < j1 {
        assert(!is_space(s[j2]) && is_space(s[j2]));
    }
}

/// Length of the first line: everything before the first CR or LF.
pub open spec fn spec_line_end(s: Seq<u8>) -> int {
    choose|j: int| eol_scan_at(s, 0, s.len() as int, j)
}

/// Start of the method token: the first non-space of the line.
pub open spec fn spec_method_start(s: Seq<u8>) -> int {
    choose|j: int| nonspace_scan_at(s, 0, spec_line_end(s), j)
}

/// End of the method token.
pub open spec fn spec_method_end(s: Seq<u8>) -> int {
    choose|j: int| space_scan_at(s, spec_method_start(s), spec_line_end(s), j)
}

/// Start of the target token.
pub open spec fn spec_target_start(s: Seq<u8>) -> int {
    choose|j: int| nonspace_scan_at(s, spec_method_end(s), spec_line_end(s), j)
}

/// End of the target token.
pub open spec fn spec_target_end(s: Seq<u8>) -> int {
    choose|j: int| space_scan_at(s, spec_target_start(s), spec_line_end(s), j)
}

/// The method a request names: the first token of its first line, empty
/// when the line holds no token.
pub open spec fn spec_method(s: Seq<u8>) -> Seq<u8> {
    s.subrange(spec_method_start(s), spec_method_end(s))
}

/// The target a request names: the second token of its first line, or the
/// root path `/` when there is none.
pub open spec fn spec_target(s: Seq<u8>) -> Seq<u8> {
    if spec_target_start(s) == spec_target_end(s) {
        seq![47u8]
    } else {
        s.subrange(spec_target_start(s), spec_target_end(s))
    }
}

/// Method and target of one HTTP request.
pub struct RequestLine {
    pub method: Vec<u8>,
    pub target: Vec<u8>,
}

fn scan_eol(buf: &Vec<u8>, from: usize, to: usize) -> (j: usize)
    requires
        from <= to <= buf@.len(),
    ensures
        eol_scan_at(buf@, from as int, to as int, j as int),
{
    let mut j = from;
    while j < to
        invariant
            from <= j <= to <= buf@.len(),
            forall|i: int| from <= i < j ==> !is_eol(#[trigger] buf@[i]),
        decreases to - j,
    {
        let b = buf[j];
        if b == 13 || b == 10 {
            return j;
        }
        j = j + 1;
    }
    j
}

fn skip_spaces(buf: &Vec<u8>, from: usize, to: usize) -> (j: usize)
    requires
        from <= to <= buf@.len(),
    ensures
        nonspace_scan_at(buf@, from as int, to as int, j as int),
{
    let mut j = from;
    while j < to
        invariant
            from <= j <= to <= buf@.len(),
            forall|i: int| from <= i < j ==> is_space(#[trigger] buf@[i]),
        decreases to - j,
    {
        let b = buf[j];
        if !(b == 32 || b == 9) {
            return j;
        }
        j = j + 1;
    }
    j
}

fn find_token_end(buf: &Vec<u8>, from: usize, to: usize) -> (j: usize)
    requires
        from <= to <= buf@.len(),
    ensures
        space_scan_at(buf@, from as int, to as int, j as int),
{
    let mut j = from;
    while j < to
        invariant
            from <= j <= to <= buf@.len(),
            forall|i: int| from <= i < j ==> !is_space(#[trigger] buf@[i]),
        decreases to - j,
    {
        let b = buf[j];
        if b == 32 || b == 9 {
            return j;
        }
        j = j + 1;
    }
    j
}

fn copy_range(buf: &Vec<u8>, from: usize, to: usize) -> (r: Vec<u8>)
    requires
        from <= to <= buf@.len(),
    ensures
        r@ == buf@.subrange(from as int, to as int),
{
    let mut r: Vec<u8> = Vec::new();
    let mut j = from;
    while j < to
        invariant
            from <= j <= to <= buf@.len(),
            r@ == buf@.subrange(from as int, j as int),
        decreases to - j,
    {
        r.push(buf[j]);
        proof {
            assert(r@ =~= buf@.subrange(from as int, j + 1));
        }
        j = j + 1;
    }
    r
}

/// Splits the first line of a request into its method and target tokens,
/// separated by spaces or tabs and ended by the first CR or LF.  A request
/// with no first token has an empty method; one with no second token is
/// taken to ask for the root path.
pub fn parse_request_line(buf: &Vec<u8>) -> (r: RequestLine)
    ensures
        r.method@ == spec_method(buf@),
        r.target@ == spec_target(buf@),
{
    let le = scan_eol(buf, 0, buf.len());
    let ms = skip_spaces(buf, 0, le);
    let me = find_token_end(buf, ms, le);
    let ts = skip_spaces(buf, me, le);
    let te = find_token_end(buf, ts, le);
    proof {
        lemma_eol_scan_unique(buf@, 0, buf@.len() as int, le as int, spec_line_end(buf@));
        lemma_nonspace_scan_unique(buf@, 0, le as int, ms as int, spec_method_start(buf@));
        lemma_space_scan_unique(buf@, ms as int, le as int, me as int, spec_method_end(buf@));
        lemma_nonspace_scan_unique(buf@, me as int, le as int, ts as int,
            spec_target_start(buf@));
        lemma_space_scan_unique(buf@, ts as int, le as int, te as int, spec_target_end(buf@));
    }
    let method = copy_range(buf, ms, me);
    let target: Vec<u8>;
    if ts == te {
        let mut slash: Vec<u8> = Vec::new();
        slash.push(47u8);
        proof {
            assert(slash@ =~= seq![47u8]);
        }
        target = slash;
    } else {
        target = copy_range(buf, ts, te);
    }
    RequestLine { method, target }
}

/// Whether a method asks for a plain read: the three letters of `GET` in
/// any letter case.
pub open spec fn spec_is_get(m: Seq<u8>) -> bool {
    m.len() == 3 && (m[0] == 71 || m[0] == 103) && (m[1] == 69 || m[1] == 101) && (m[2] == 84
        || m[2] == 116)
}

pub fn is_get_method(method: &Vec<u8>) -> (r: bool)
    ensures
        r == spec_is_get(method@),
{
    if method.len() != 3 {
        return false;
    }
    let b0 = method[0];
    let b1 = method[1];
    let b2 = method[2];
    (b0 == 71 || b0 == 103) && (b1 == 69 || b1 == 101) && (b2 == 84 || b2 == 116)
}

/// A character stripped from the front of a request target before the
/// target is joined below the root directory.
pub open spec fn is_separator(c: char) -> bool {
    c == '/' || c == '\\'
}

/// `k` counts the leading separators of `p`: everything before `k` is one,
/// and `p[k]`, if present, is not.
pub open spec fn leading_separators_at(p: Seq<char>, k: int) -> bool {
    &&& 0 <= k <= p.len()
    &&& forall|i: int| 0 <= i < k ==> is_separator(#[trigger] p[i])
    &&& k < p.len() ==> !is_separator(p[k])
}

/// How many leading separators a path carries.
pub open spec fn spec_leading_separators(p: Seq<char>) -> int {
    choose|k: int| leading_separators_at(p, k)
}

proof fn lemma_leading_separators_unique(p: Seq<char>, k: int)
    requires
        leading_separators_at(p, k),
    ensures
        spec_leading_separators(p) == k,
{
    assert(exists|j: int| leading_separators_at(p, j));
    let k0 = spec_leading_separators(p);
    assert(leading_separators_at(p, k0));
    if k0 < k {
        assert(is_separator(p[k0]) && !is_separator(p[k0]));
    }
    if k < k0 {
        assert(is_separator(p[k]) && !is_separator(p[k]));
    }
}

/// The request target with its leading `/` and `\` characters removed.
pub fn strip_leading_separators(path: &str) -> (r: &str)
    ensures
        r@ == path@.subrange(spec_leading_separators(path@), path@.len() as int),
{
    let n = path.unicode_len();
    let mut k: usize = 0;
    while k < n
        invariant
            k <= n == path@.len(),
            forall|i: int| 0 <= i < k ==> is_separator(#[trigger] path@[i]),
        decreases n - k,
    {
        let c = path.get_char(k);
        if !(c == '/' || c == '\\') {
            proof {
                assert(leading_separators_at(path@, k as int));
                lemma_leading_separators_unique(path@, k as int);
            }
            return path.substring_char(k, n);
        }
        k = k + 1;
    }
    proof {
        assert(leading_separators_at(path@, k as int));
        lemma_leading_separators_unique(path@, k as int);
    }
    path.substring_char(k, n)
}

/// Whether a file of `file_size` bytes is streamed to the client in chunks
/// rather than read whole (and cached) first: at or above 100 mebibytes.
pub fn use_chunked(file_size: u64) -> (r: bool)
    ensures
        r == (file_size >= 104857600),
{
    file_size >= 1024 * 1024 * 100
}

} // verus!
