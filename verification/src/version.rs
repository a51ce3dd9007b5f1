//! Line-oriented scanning of a version header: `#define CV_VERSION_MAJOR`,
//! `MINOR` and `REVISION` lines are collected, in any order and interspersed
//! with unrelated lines, into a three-part `MAJOR.MINOR.REVISION` version;
//! if any of the three is missing there is no version.
use vstd::prelude::*;

use crate::bytes_from_slice;
use crate::bytes_push_all;

verus! {

broadcast use
    vstd::seq_lib::group_seq_properties,
    vstd::seq_lib::group_seq_lib_default,
    Seq::lemma_push_map_commute,
;

// ---- splitting a buffer into lines ----
/// Length of the first line of `s`, its terminating newline included.
pub open spec fn line_len(s: Seq<u8>) -> nat
    decreases s.len(),
{
    if s.len() == 0 {
        0
    } else if s[0] == 10 {
        1
    } else {
        (1 + line_len(s.drop_first())) as nat
    }
}

pub proof fn lemma_line_len_bounds(s: Seq<u8>)
    ensures
        s.len() > 0 ==> 1 <= line_len(s) <= s.len(),
        s.len() == 0 ==> line_len(s) == 0,
    decreases s.len(),
{
    if s.len() > 0 && s[0] != 10 {
        lemma_line_len_bounds(s.drop_first());
    }
}

/// The first newline (or the end of `s`) decides the first line's length.
proof fn lemma_line_len_at(s: Seq<u8>, i: int)
    requires
        0 <= i <= s.len(),
        forall|j: int| 0 <= j < i ==> s[j] != 10,
        i < s.len() ==> s[i] == 10,
    ensures
        i < s.len() ==> line_len(s) == i + 1,
        i == s.len() ==> line_len(s) == s.len(),
    decreases s.len(),
{
    if s.len() > 0 && s[0] != 10 {
        let t = s.drop_first();
        assert forall|j: int| 0 <= j < i - 1 implies t[j] != 10 by {
            assert(t[j] == s[j + 1]);
        }
        assert(i > 0);
        if i - 1 < t.len() {
            assert(t[i - 1] == s[i]);
        }
        lemma_line_len_at(t, i - 1);
    }
}

/// The lines of `c`: each keeps its terminating newline; a trailing line
/// without one is still a line.
pub open spec fn spec_lines(c: Seq<u8>) -> Seq<Seq<u8>>
    decreases c.len(),
    via spec_lines_dec
{
    if c.len() == 0 {
        Seq::empty()
    } else {
        seq![c.take(line_len(c) as int)] + spec_lines(c.skip(line_len(c) as int))
    }
}

#[via_fn]
proof fn spec_lines_dec(c: Seq<u8>) {
    lemma_line_len_bounds(c);
}

/// The split is lossless: the lines, concatenated, are the buffer.
pub proof fn lemma_lines_reconstruct(c: Seq<u8>)
    ensures
        spec_lines(c).flatten() == c,
    decreases c.len(),
{
    if c.len() == 0 {
        assert(spec_lines(c).flatten() =~= c);
    } else {
        lemma_line_len_bounds(c);
        let l = line_len(c) as int;
        lemma_lines_reconstruct(c.skip(l));
        let ls = spec_lines(c);
        assert(ls == seq![c.take(l)] + spec_lines(c.skip(l)));
        assert(ls.len() > 0);
        assert(ls.first() == c.take(l));
        assert(ls.drop_first() =~= spec_lines(c.skip(l)));
        assert(ls.flatten() == ls.first() + ls.drop_first().flatten());
        assert(c.take(l) + c.skip(l) =~= c);
    }
}

/// The view of a list of owned lines as a sequence of byte strings.
pub open spec fn lines_view(s: Seq<Vec<u8>>) -> Seq<Seq<u8>> {
    s.map_values(|v: Vec<u8>| v@)
}

/// An owned copy of `a[from .. to]`.
pub fn bytes_range(a: &[u8], from: usize, to: usize) -> (r: Vec<u8>)
    requires
        from <= to <= a@.len(),
    ensures
        r@ == a@.subrange(from as int, to as int),
{
    let mut r: Vec<u8> = Vec::new();
    let mut i: usize = from;
    while i < to
        invariant
            from <= i <= to <= a@.len(),
            r@ == a@.subrange(from as int, i as int),
        decreases to - i,
    {
        r.push(a[i]);
        proof {
            assert(r@ =~= a@.subrange(from as int, i as int + 1));
        }
        i += 1;
    }
    r
}

fn find_line_len(a: &[u8], from: usize) -> (l: usize)
    requires
        from < a@.len(),
    ensures
        l == line_len(a@.skip(from as int)),
        1 <= l <= a@.len() - from,
{
    let n = a.len();
    let mut j = from;
    while j < n && a[j] != 10
        invariant
            from <= j <= n,
            n == a@.len(),
            forall|i: int| from <= i < j ==> a@[i] != 10,
        decreases n - j,
    {
        j += 1;
    }
    proof {
        let s = a@.skip(from as int);
        assert forall|i: int| 0 <= i < j - from implies s[i] != 10 by {
            assert(s[i] == a@[from + i]);
        }
        if j < n {
            assert(s[j - from] == a@[j as int]);
        }
        lemma_line_len_at(s, j - from);
        lemma_line_len_bounds(s);
    }
    if j < n {
        j + 1 - from
    } else {
        j - from
    }
}

/// Splits a buffer into its lines, newline terminators kept, exactly as a
/// buffered line-by-line reader would hand them to a callback.
pub fn line_reader(content: &[u8]) -> (r: Vec<Vec<u8>>)
    ensures
        lines_view(r@) == spec_lines(content@),
{
    let ghost c = content@;
    let mut out: Vec<Vec<u8>> = Vec::new();
    let mut pos: usize = 0;
    proof {
        assert(lines_view(out@) =~= Seq::<Seq<u8>>::empty());
    }
    while pos < content.len()
        invariant
            0 <= pos <= c.len(),
            c == content@,
            spec_lines(c) == lines_view(out@) + spec_lines(c.skip(pos as int)),
        decreases c.len() - pos,
    {
        let l = find_line_len(content, pos);
        let line = bytes_range(content, pos, pos + l);
        let ghost out0 = out@;
        out.push(line);
        proof {
            let s = c.skip(pos as int);
            assert(spec_lines(s) == seq![s.take(l as int)] + spec_lines(s.skip(l as int)));
            assert(s.take(l as int) =~= c.subrange(pos as int, pos as int + l as int));
            assert(s.skip(l as int) =~= c.skip(pos as int + l as int));
            assert(lines_view(out@) =~= lines_view(out0).push(line@));
            assert(lines_view(out@) + spec_lines(c.skip(pos as int + l as int)) =~= spec_lines(c));
        }
        pos += l;
    }
    proof {
        assert(c.skip(c.len() as int).len() == 0);
        assert(lines_view(out@) + spec_lines(c.skip(pos as int)) =~= lines_view(out@));
    }
    out
}

// ---- tokenising one line ----
/// ASCII whitespace, as a line splitter sees it.
pub open spec fn is_ws(b: u8) -> bool {
    b == 32 || b == 9 || b == 10 || b == 11 || b == 12 || b == 13
}

/// Count of leading whitespace bytes.
pub open spec fn ws_len(s: Seq<u8>) -> nat
    decreases s.len(),
{
    if s.len() == 0 || !is_ws(s[0]) {
        0
    } else {
        (1 + ws_len(s.drop_first())) as nat
    }
}

/// Count of leading non-whitespace bytes.
pub open spec fn tok_len(s: Seq<u8>) -> nat
    decreases s.len(),
{
    if s.len() == 0 || is_ws(s[0]) {
        0
    } else {
        (1 + tok_len(s.drop_first())) as nat
    }
}

proof fn lemma_ws_len_at(s: Seq<u8>, i: int)
    requires
        0 <= i <= s.len(),
        forall|j: int| 0 <= j < i ==> is_ws(s[j]),
        i < s.len() ==> !is_ws(s[i]),
    ensures
        ws_len(s) == i,
        ws_len(s) <= s.len(),
    decreases s.len(),
{
    if s.len() > 0 && is_ws(s[0]) {
        let t = s.drop_first();
        assert forall|j: int| 0 <= j < i - 1 implies is_ws(t[j]) by {
            assert(t[j] == s[j + 1]);
        }
        assert(i > 0);
        if i - 1 < t.len() {
            assert(t[i - 1] == s[i]);
        }
        lemma_ws_len_at(t, i - 1);
    }
}

proof fn lemma_tok_len_at(s: Seq<u8>, i: int)
    requires
        0 <= i <= s.len(),
        forall|j: int| 0 <= j < i ==> !is_ws(s[j]),
        i < s.len() ==> is_ws(s[i]),
    ensures
        tok_len(s) == i,
        tok_len(s) <= s.len(),
    decreases s.len(),
{
    if s.len() > 0 && !is_ws(s[0]) {
        let t = s.drop_first();
        assert forall|j: int| 0 <= j < i - 1 implies !is_ws(t[j]) by {
            assert(t[j] == s[j + 1]);
        }
        assert(i > 0);
        if i - 1 < t.len() {
            assert(t[i - 1] == s[i]);
        }
        lemma_tok_len_at(t, i - 1);
    }
}

/// The first whitespace-separated token of `s`, empty if there is none.
pub open spec fn first_token(s: Seq<u8>) -> Seq<u8> {
    let a = ws_len(s) as int;
    s.subrange(a, a + tok_len(s.skip(a)) as int)
}

/// What remains of `s` after its first token.
pub open spec fn after_token(s: Seq<u8>) -> Seq<u8> {
    let a = ws_len(s) as int;
    s.skip(a + tok_len(s.skip(a)) as int)
}

fn is_ws_byte(b: u8) -> (r: bool)
    ensures
        r == is_ws(b),
{
    b == 32 || b == 9 || b == 10 || b == 11 || b == 12 || b == 13
}

fn scan_ws(a: &[u8], from: usize) -> (r: usize)
    requires
        from <= a@.len(),
    ensures
        r - from == ws_len(a@.skip(from as int)),
        from <= r <= a@.len(),
{
    let n = a.len();
    let mut j = from;
    while j < n && is_ws_byte(a[j])
        invariant
            from <= j <= n,
            n == a@.len(),
            forall|i: int| from <= i < j ==> is_ws(a@[i]),
        decreases n - j,
    {
        j += 1;
    }
    proof {
        let s = a@.skip(from as int);
        assert forall|i: int| 0 <= i < j - from implies is_ws(s[i]) by {
            assert(s[i] == a@[from + i]);
        }
        if j < n {
            assert(s[j - from] == a@[j as int]);
        }
        lemma_ws_len_at(s, j - from);
    }
    j
}

fn scan_token(a: &[u8], from: usize) -> (r: usize)
    requires
        from <= a@.len(),
    ensures
        r - from == tok_len(a@.skip(from as int)),
        from <= r <= a@.len(),
{
    let n = a.len();
    let mut j = from;
    while j < n && !is_ws_byte(a[j])
        invariant
            from <= j <= n,
            n == a@.len(),
            forall|i: int| from <= i < j ==> !is_ws(a@[i]),
        decreases n - j,
    {
        j += 1;
    }
    proof {
        let s = a@.skip(from as int);
        assert forall|i: int| 0 <= i < j - from implies !is_ws(s[i]) by {
            assert(s[i] == a@[from + i]);
        }
        if j < n {
            assert(s[j - from] == a@[j as int]);
        }
        lemma_tok_len_at(s, j - from);
    }
    j
}

/// Finds the first whitespace-separated token of `a` at or after `from`:
/// the returned pair brackets the token, and everything from its end on is
/// what `after_token` leaves.
fn token_span(a: &[u8], from: usize) -> (r: (usize, usize))
    requires
        from <= a@.len(),
    ensures
        from <= r.0 <= r.1 <= a@.len(),
        a@.subrange(r.0 as int, r.1 as int) == first_token(a@.skip(from as int)),
        a@.skip(r.1 as int) == after_token(a@.skip(from as int)),
        first_token(a@.skip(from as int)).len() == 0 <==> r.0 == r.1,
{
    let p = scan_ws(a, from);
    let q = scan_token(a, p);
    proof {
        let s = a@.skip(from as int);
        let w = ws_len(s) as int;
        assert(p - from == w);
        assert(s.skip(w) =~= a@.skip(p as int));
        assert(q - p == tok_len(s.skip(w)));
        let t = tok_len(s.skip(w)) as int;
        assert(first_token(s) == s.subrange(w, w + t));
        assert(s.subrange(w, w + t) =~= a@.subrange(p as int, q as int));
        assert(after_token(s) == s.skip(w + t));
        assert(s.skip(w + t) =~= a@.skip(q as int));
    }
    (p, q)
}

// ---- recognising the version defines ----
/// `#define CV_VERSION_`
pub open spec fn version_define_prefix() -> Seq<u8> {
    seq![
        35u8, 100u8, 101u8, 102u8, 105u8, 110u8, 101u8, 32u8, 67u8, 86u8, 95u8, 86u8, 69u8, 82u8,
        83u8, 73u8, 79u8, 78u8, 95u8,
    ]
}

/// `MAJOR`
pub open spec fn word_major() -> Seq<u8> {
    seq![77u8, 65u8, 74u8, 79u8, 82u8]
}

/// `MINOR`
pub open spec fn word_minor() -> Seq<u8> {
    seq![77u8, 73u8, 78u8, 79u8, 82u8]
}

/// `REVISION`
pub open spec fn word_revision() -> Seq<u8> {
    seq![82u8, 69u8, 86u8, 73u8, 83u8, 73u8, 79u8, 78u8]
}

/// Which of the three version components a line carries.
#[derive(PartialEq, Eq, Structural, Clone, Copy, Debug)]
pub enum VersionPart {
    Major,
    Minor,
    Revision,
}

/// Reads one line as a version define: the line must start with
/// `#define CV_VERSION_`, and of the rest the first token names the part
/// and the second is its value.
pub open spec fn spec_parse_define_line(line: Seq<u8>) -> Option<(VersionPart, Seq<u8>)> {
    if line.len() < version_define_prefix().len() || line.take(version_define_prefix().len() as int)
        != version_define_prefix() {
        None
    } else {
        let rest = line.skip(version_define_prefix().len() as int);
        let name = first_token(rest);
        let value = first_token(after_token(rest));
        if name.len() == 0 || value.len() == 0 {
            None
        } else if name == word_major() {
            Some((VersionPart::Major, value))
        } else if name == word_minor() {
            Some((VersionPart::Minor, value))
        } else if name == word_revision() {
            Some((VersionPart::Revision, value))
        } else {
            None
        }
    }
}

#[verifier::rlimit(80)]
fn parse_define_line(line: &[u8]) -> (r: Option<(VersionPart, Vec<u8>)>)
    ensures
        match r {
            Some(p) => spec_parse_define_line(line@) == Some((p.0, p.1@)),
            None => spec_parse_define_line(line@) == None::<(VersionPart, Seq<u8>)>,
        },
{
    let prefix: [u8; 19] = [
        35, 100, 101, 102, 105, 110, 101, 32, 67, 86, 95, 86, 69, 82, 83, 73, 79, 78, 95,
    ];
    proof {
        assert(prefix@ =~= version_define_prefix());
    }
    if line.len() < 19 {
        return None;
    }
    let mut i: usize = 0;
    while i < 19
        invariant
            0 <= i <= 19,
            line@.len() >= 19,
            prefix@ == version_define_prefix(),
            forall|j: int| 0 <= j < i ==> line@[j] == prefix@[j],
        decreases 19 - i,
    {
        if line[i] != prefix[i] {
            proof {
                assert(line@.take(19)[i as int] != version_define_prefix()[i as int]);
            }
            return None;
        }
        i += 1;
    }
    proof {
        assert(line@.take(19) =~= version_define_prefix());
    }
    let ghost rest = line@.skip(19);
    let span1 = token_span(line, 19);
    proof {
        assert(line@.subrange(span1.0 as int, span1.1 as int) == first_token(rest));
        assert(line@.skip(span1.1 as int) == after_token(rest));
    }
    if span1.0 == span1.1 {
        return None;
    }
    let name = bytes_range(line, span1.0, span1.1);
    let span2 = token_span(line, span1.1);
    proof {
        assert(line@.subrange(span2.0 as int, span2.1 as int) == first_token(after_token(rest)));
    }
    if span2.0 == span2.1 {
        return None;
    }
    let value = bytes_range(line, span2.0, span2.1);
    let w_major: [u8; 5] = [77, 65, 74, 79, 82];
    let w_minor: [u8; 5] = [77, 73, 78, 79, 82];
    let w_revision: [u8; 8] = [82, 69, 86, 73, 83, 73, 79, 78];
    proof {
        assert(w_major@ =~= word_major());
        assert(w_minor@ =~= word_minor());
        assert(w_revision@ =~= word_revision());
    }
    if crate::bytes_eq(name.as_slice(), w_major.as_slice()) {
        Some((VersionPart::Major, value))
    } else if crate::bytes_eq(name.as_slice(), w_minor.as_slice()) {
        Some((VersionPart::Minor, value))
    } else if crate::bytes_eq(name.as_slice(), w_revision.as_slice()) {
        Some((VersionPart::Revision, value))
    } else {
        None
    }
}

// ---- folding the lines into a version ----
/// The three components gathered so far.
pub open spec fn spec_step(
    st: (Option<Seq<u8>>, Option<Seq<u8>>, Option<Seq<u8>>),
    line: Seq<u8>,
) -> (Option<Seq<u8>>, Option<Seq<u8>>, Option<Seq<u8>>) {
    match spec_parse_define_line(line) {
        Some(p) => match p.0 {
            VersionPart::Major => (Some(p.1), st.1, st.2),
            VersionPart::Minor => (st.0, Some(p.1), st.2),
            VersionPart::Revision => (st.0, st.1, Some(p.1)),
        },
        None => st,
    }
}

pub open spec fn spec_complete(st: (Option<Seq<u8>>, Option<Seq<u8>>, Option<Seq<u8>>)) -> bool {
    st.0 is Some && st.1 is Some && st.2 is Some
}

/// Folds the lines, stopping early once all three components are present.
pub open spec fn spec_scan(
    lines: Seq<Seq<u8>>,
    st: (Option<Seq<u8>>, Option<Seq<u8>>, Option<Seq<u8>>),
) -> (Option<Seq<u8>>, Option<Seq<u8>>, Option<Seq<u8>>)
    decreases lines.len(),
{
    if lines.len() == 0 || spec_complete(st) {
        st
    } else {
        spec_scan(lines.drop_first(), spec_step(st, lines[0]))
    }
}

/// `MAJOR.MINOR.REVISION`
pub open spec fn spec_join_version(maj: Seq<u8>, min: Seq<u8>, rev: Seq<u8>) -> Seq<u8> {
    maj + seq![46u8] + min + seq![46u8] + rev
}

/// The version a header's text yields: the scan must find all three
/// components, else there is no version.
pub open spec fn spec_version_of(content: Seq<u8>) -> Option<Seq<u8>> {
    let st = spec_scan(spec_lines(content), (None, None, None));
    if spec_complete(st) {
        Some(spec_join_version(st.0.unwrap(), st.1.unwrap(), st.2.unwrap()))
    } else {
        None
    }
}

pub open spec fn opt_view(o: Option<Vec<u8>>) -> Option<Seq<u8>> {
    match o {
        Some(v) => Some(v@),
        None => None,
    }
}

/// Scans a version header's text for the `#define CV_VERSION_MAJOR`,
/// `MINOR` and `REVISION` lines and joins them as `MAJOR.MINOR.REVISION`;
/// `None` if any one of the three is absent.
pub fn get_version_from_headers(content: &[u8]) -> (r: Option<Vec<u8>>)
    ensures
        opt_view(r) == spec_version_of(content@),
{
    let lines = line_reader(content);
    let ghost all = lines_view(lines@);
    let mut major: Option<Vec<u8>> = None;
    let mut minor: Option<Vec<u8>> = None;
    let mut revision: Option<Vec<u8>> = None;
    let mut i: usize = 0;
    let n = lines.len();
    while i < n && !(major.is_some() && minor.is_some() && revision.is_some())
        invariant
            0 <= i <= n,
            n == lines@.len(),
            all == lines_view(lines@),
            spec_scan(all, (None, None, None)) == spec_scan(
                all.skip(i as int),
                (opt_view(major), opt_view(minor), opt_view(revision)),
            ),
        decreases n - i,
    {
        let ghost st = (opt_view(major), opt_view(minor), opt_view(revision));
        match parse_define_line(lines[i].as_slice()) {
            Some(p) => {
                match p.0 {
                    VersionPart::Major => {
                        major = Some(p.1);
                    }
                    VersionPart::Minor => {
                        minor = Some(p.1);
                    }
                    VersionPart::Revision => {
                        revision = Some(p.1);
                    }
                }
            }
            None => {}
        }
        proof {
            assert(all[i as int] == lines@[i as int]@);
            assert(all.skip(i as int)[0] == all[i as int]);
            assert(all.skip(i as int).drop_first() =~= all.skip(i as int + 1));
            assert((opt_view(major), opt_view(minor), opt_view(revision)) == spec_step(
                st,
                all[i as int],
            ));
            assert(spec_scan(all.skip(i as int), st) == spec_scan(
                all.skip(i as int + 1),
                spec_step(st, all[i as int]),
            ));
        }
        i += 1;
    }
    proof {
        let st = (opt_view(major), opt_view(minor), opt_view(revision));
        if i < n {
            assert(spec_complete(st));
        } else {
            assert(all.skip(i as int).len() == 0);
        }
        assert(spec_scan(all.skip(i as int), st) == st);
    }
    match (major, minor, revision) {
        (Some(maj), Some(min), Some(rev)) => {
            let mut out = bytes_from_slice(maj.as_slice());
            out.push(46);
            bytes_push_all(&mut out, min.as_slice());
            out.push(46);
            bytes_push_all(&mut out, rev.as_slice());
            proof {
                assert(out@ =~= spec_join_version(maj@, min@, rev@));
            }
            Some(out)
        }
        _ => None,
    }
}

/// Where the version header of a header tree stands: either the plain
/// `opencv2/core/version.hpp` location or the framework layout's
/// `opencv2.framework/Headers/core/version.hpp`.
#[derive(PartialEq, Eq, Structural, Clone, Copy, Debug)]
pub enum VersionHeaderLocation {
    CoreHpp,
    FrameworkHpp,
}

/// Decides which candidate version header to read, given whether each
/// candidate exists as a file: the plain layout wins over the framework
/// layout, and with neither present there is no version header.
pub fn get_version_header(core_exists: bool, framework_exists: bool) -> (r: Option<
    VersionHeaderLocation,
>)
    ensures
        core_exists ==> r == Some(VersionHeaderLocation::CoreHpp),
        !core_exists && framework_exists ==> r == Some(VersionHeaderLocation::FrameworkHpp),
        !core_exists && !framework_exists ==> r == None::<VersionHeaderLocation>,
{
    if core_exists {
        Some(VersionHeaderLocation::CoreHpp)
    } else if framework_exists {
        Some(VersionHeaderLocation::FrameworkHpp)
    } else {
        None
    }
}

} // verus!
