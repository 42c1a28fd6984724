//! How one file differs: the +/- counts the sidebar shows, and the line-level hunks the
//! diff view renders. Everything here works in lines of text; the line diff itself is
//! gix's histogram diff with git's slider heuristics.

use vstd::prelude::*;
use vstd::utf8::{decode_utf8, valid_utf8};
use gix::diff::blob::{diff_with_slider_heuristics, Algorithm, InternedInput};

use crate::text::{
    append_str, chars_of, decimal, decimal_chars, lines_of, lines_with_terminators, string_of, strip_eol,
    strip_line_ending,
};
use crate::types::{Changes, DiffHunk, DiffHunkView, DiffLine, DiffLineView, FileDiff, LineKind};

verus! {

/// Unchanged lines shown either side of a change, as git does by default.
pub const CONTEXT_LINES: u32 = 3;

/// One changed region of a line diff: the 0-based line ranges `before_start..before_end` of
/// the old side were replaced by `after_start..after_end` of the new side.
#[derive(Clone, Copy, Debug, PartialEq, Eq, Structural)]
pub struct RawHunk {
    pub before_start: u32,
    pub before_end: u32,
    pub after_start: u32,
    pub after_end: u32,
}

/// Where the unchanged run before change `k` starts on the old side (the run after the
/// last change when `k` is the number of changes).
pub open spec fn gap_old_start(hs: Seq<RawHunk>, k: int) -> int {
    if k == 0 { 0 } else { hs[k - 1].before_end as int }
}

pub open spec fn gap_new_start(hs: Seq<RawHunk>, k: int) -> int {
    if k == 0 { 0 } else { hs[k - 1].after_end as int }
}

/// Where the unchanged run before change `k` ends on the old side.
pub open spec fn gap_old_end(hs: Seq<RawHunk>, old_len: int, k: int) -> int {
    if k < hs.len() { hs[k].before_start as int } else { old_len }
}

pub open spec fn gap_new_end(hs: Seq<RawHunk>, new_len: int, k: int) -> int {
    if k < hs.len() { hs[k].after_start as int } else { new_len }
}

/// The `k`-th unchanged run is as long on both sides, and holds the same lines.
pub open spec fn gap_matches(hs: Seq<RawHunk>, a: Seq<Seq<char>>, b: Seq<Seq<char>>, k: int) -> bool {
    let os = gap_old_start(hs, k);
    let ns = gap_new_start(hs, k);
    let oe = gap_old_end(hs, a.len() as int, k);
    let ne = gap_new_end(hs, b.len() as int, k);
    &&& os <= oe
    &&& ns <= ne
    &&& oe - os == ne - ns
    &&& forall|j: int| 0 <= j < oe - os ==> #[trigger] a[os + j] == b[ns + j]
}

/// A change is a non-empty replacement with ordered bounds.
pub open spec fn change_ok(h: RawHunk) -> bool {
    &&& h.before_start <= h.before_end
    &&& h.after_start <= h.after_end
    &&& (h.before_start < h.before_end || h.after_start < h.after_end)
}

/// `hs` is an edit script turning the lines `a` into the lines `b`: non-empty changes in
/// increasing order, separated by unchanged runs that read the same on both sides.
pub open spec fn is_edit_script(hs: Seq<RawHunk>, a: Seq<Seq<char>>, b: Seq<Seq<char>>) -> bool {
    &&& forall|k: int| 0 <= k < hs.len() ==> #[trigger] change_ok(hs[k])
    &&& forall|k: int| 0 <= k <= hs.len() ==> #[trigger] gap_matches(hs, a, b, k)
}

/// The changes gix's histogram line diff (with git's slider heuristics) finds between two
/// texts, in the order its hunk iterator yields them.
pub uninterp spec fn histogram_hunks(old: Seq<char>, new: Seq<char>) -> Seq<RawHunk>;

/// Runs gix's histogram line diff, with slider heuristics, over two texts, and lists the
/// changed regions its hunk iterator yields.
///
/// gix tokenizes a `&str` into lines that keep their `'\n'` (what `lines_of` describes),
/// computes an edit script that turns the old lines into the new ones, and yields each
/// changed region once, in increasing order, never empty; what lies between two regions
/// is unchanged on both sides. That is all the contract claims beyond naming the result.
/// It panics on a side with `i32::MAX` lines or more, which the `requires` leaves out.
#[verifier::external_body]
fn histogram_diff(old: &str, new: &str) -> (r: Vec<RawHunk>)
    requires
        lines_of(old@).len() < i32::MAX,
        lines_of(new@).len() < i32::MAX,
    ensures
        r@ == histogram_hunks(old@, new@),
        is_edit_script(r@, lines_of(old@), lines_of(new@)),
{
    let input = InternedInput::new(old, new);
    let diff = diff_with_slider_heuristics(Algorithm::Histogram, &input);
    diff.hunks().map(|h| RawHunk {
        before_start: h.before.start,
        before_end: h.before.end,
        after_start: h.after.start,
        after_end: h.after.end,
    }).collect()
}

/// Text of a byte string that is valid UTF-8: `std::str::from_utf8`, which accepts exactly
/// the valid encodings and decodes them.
#[verifier::external_body]
pub(crate) fn utf8_str(bytes: &[u8]) -> (r: Option<&str>)
    ensures
        r is Some <==> valid_utf8(bytes@),
        r matches Some(s) ==> s@ == decode_utf8(bytes@),
{
    std::str::from_utf8(bytes).ok()
}

// ---------------------------------------------------------------------------------------
// Grouping changes into hunks.

/// Change `k` starts a new hunk: it is the first, or the unchanged lines between it and
/// the previous change are more than both context runs would show.
pub open spec fn starts_hunk(hs: Seq<RawHunk>, k: int) -> bool {
    k == 0 || hs[k].before_start - hs[k - 1].before_end > 2 * CONTEXT_LINES
}

/// The hunks' changes, from change `i` on, the current hunk having begun at change `s`.
pub open spec fn groups_from(hs: Seq<RawHunk>, s: int, i: int) -> Seq<Seq<RawHunk>>
    decreases hs.len() - i,
{
    if i >= hs.len() {
        if s < hs.len() {
            seq![hs.subrange(s, hs.len() as int)]
        } else {
            seq![]
        }
    } else if i > s && starts_hunk(hs, i) {
        seq![hs.subrange(s, i)] + groups_from(hs, i, i + 1)
    } else {
        groups_from(hs, s, i + 1)
    }
}

/// The changes split into hunks the way git does: two changes whose context lines would
/// touch are one hunk.
pub open spec fn groups(hs: Seq<RawHunk>) -> Seq<Seq<RawHunk>> {
    groups_from(hs, 0, 0)
}

// ---------------------------------------------------------------------------------------
// The lines and header of one hunk.

/// Unchanged lines from old-side index `old_pos` up to `to`, numbered on both sides.
pub open spec fn context_lines(a: Seq<Seq<char>>, old_pos: int, new_pos: int, to: int) -> Seq<
    DiffLineView,
> {
    Seq::new(
        if to > old_pos { (to - old_pos) as nat } else { 0 },
        |j: int|
            DiffLineView {
                kind: LineKind::Context,
                old_no: Some((old_pos + j + 1) as u32),
                new_no: Some((new_pos + j + 1) as u32),
                content: strip_eol(a[old_pos + j]),
            },
    )
}

/// The deleted lines of change `h`, numbered on the old side only.
pub open spec fn del_lines(a: Seq<Seq<char>>, h: RawHunk) -> Seq<DiffLineView> {
    Seq::new(
        (h.before_end - h.before_start) as nat,
        |j: int|
            DiffLineView {
                kind: LineKind::Del,
                old_no: Some((h.before_start + j + 1) as u32),
                new_no: None,
                content: strip_eol(a[h.before_start + j]),
            },
    )
}

/// The added lines of change `h`, numbered on the new side only.
pub open spec fn add_lines(b: Seq<Seq<char>>, h: RawHunk) -> Seq<DiffLineView> {
    Seq::new(
        (h.after_end - h.after_start) as nat,
        |j: int|
            DiffLineView {
                kind: LineKind::Add,
                old_no: None,
                new_no: Some((h.after_start + j + 1) as u32),
                content: strip_eol(b[h.after_start + j]),
            },
    )
}

/// The lines of a hunk from its `i`-th change on: the unchanged run up to that change,
/// the change's deletions then additions, and so on, ending with the unchanged run up to
/// `old_end`.
pub open spec fn hunk_body(
    a: Seq<Seq<char>>,
    b: Seq<Seq<char>>,
    g: Seq<RawHunk>,
    i: int,
    old_pos: int,
    new_pos: int,
    old_end: int,
) -> Seq<DiffLineView>
    decreases g.len() - i,
{
    if i >= g.len() || i < 0 {
        context_lines(a, old_pos, new_pos, old_end)
    } else {
        let h = g[i];
        context_lines(a, old_pos, new_pos, h.before_start as int) + del_lines(a, h) + add_lines(
            b,
            h,
        ) + hunk_body(a, b, g, i + 1, h.before_end as int, h.after_end as int, old_end)
    }
}

/// Up to `CONTEXT_LINES` before `x`.
pub open spec fn lead_start(x: u32) -> int {
    if x >= CONTEXT_LINES { x - CONTEXT_LINES } else { 0 }
}

/// Up to `CONTEXT_LINES` after `x`, within `len` lines.
pub open spec fn trail_end(x: u32, len: int) -> int {
    if x + CONTEXT_LINES <= len { x + CONTEXT_LINES } else { len }
}

pub open spec fn hunk_old_start(g: Seq<RawHunk>) -> int {
    lead_start(g[0].before_start)
}

pub open spec fn hunk_new_start(g: Seq<RawHunk>) -> int {
    lead_start(g[0].after_start)
}

pub open spec fn hunk_old_end(a: Seq<Seq<char>>, g: Seq<RawHunk>) -> int {
    trail_end(g.last().before_end, a.len() as int)
}

pub open spec fn hunk_new_end(b: Seq<Seq<char>>, g: Seq<RawHunk>) -> int {
    trail_end(g.last().after_end, b.len() as int)
}

/// One side of a `@@ -a,b +c,d @@` header, spelled as git spells it: an empty range names
/// the line it would follow, and a range of exactly one line leaves out the count.
pub open spec fn range_text(start: int, count: int) -> Seq<char> {
    let first = if count == 0 { start } else { start + 1 };
    if count == 1 {
        decimal(first as nat)
    } else {
        decimal(first as nat) + seq![','] + decimal(count as nat)
    }
}

/// `@@ -<old range> +<new range> @@`.
pub open spec fn header_text(old_start: int, old_count: int, new_start: int, new_count: int) -> Seq<
    char,
> {
    seq!['@', '@', ' ', '-'] + range_text(old_start, old_count) + seq![' ', '+'] + range_text(
        new_start,
        new_count,
    ) + seq![' ', '@', '@']
}

/// The hunk a group of changes makes: its changes, the unchanged lines between them, and
/// up to `CONTEXT_LINES` of context at either end.
pub open spec fn hunk_of(a: Seq<Seq<char>>, b: Seq<Seq<char>>, g: Seq<RawHunk>) -> DiffHunkView {
    let os = hunk_old_start(g);
    let oe = hunk_old_end(a, g);
    let ns = hunk_new_start(g);
    let ne = hunk_new_end(b, g);
    DiffHunkView {
        header: header_text(os, oe - os, ns, ne - ns),
        lines: hunk_body(a, b, g, 0, os, ns, oe),
    }
}

/// The hunks of a diff of the lines `a` against `b` whose changes are `hs`.
pub open spec fn hunks_of(a: Seq<Seq<char>>, b: Seq<Seq<char>>, hs: Seq<RawHunk>) -> Seq<
    DiffHunkView,
> {
    groups(hs).map_values(|g: Seq<RawHunk>| hunk_of(a, b, g))
}

/// The hunks Ziff shows for a file whose two sides read `old` and `new`.
pub open spec fn text_hunks(old: Seq<char>, new: Seq<char>) -> Seq<DiffHunkView> {
    hunks_of(lines_of(old), lines_of(new), histogram_hunks(old, new))
}

/// Lines added over all changes.
pub open spec fn total_added(hs: Seq<RawHunk>) -> int
    decreases hs.len(),
{
    if hs.len() == 0 {
        0
    } else {
        total_added(hs.drop_last()) + (hs.last().after_end - hs.last().after_start)
    }
}

/// Lines deleted over all changes.
pub open spec fn total_deleted(hs: Seq<RawHunk>) -> int
    decreases hs.len(),
{
    if hs.len() == 0 {
        0
    } else {
        total_deleted(hs.drop_last()) + (hs.last().before_end - hs.last().before_start)
    }
}


/// The lines of a text as sequences of characters.
pub open spec fn seqs(v: Seq<Vec<char>>) -> Seq<Seq<char>> {
    v.map_values(|l: Vec<char>| l@)
}

pub open spec fn line_views(v: Seq<DiffLine>) -> Seq<DiffLineView> {
    v.map_values(|l: DiffLine| l@)
}

pub open spec fn hunk_views(v: Seq<DiffHunk>) -> Seq<DiffHunkView> {
    v.map_values(|h: DiffHunk| h@)
}

/// Each change ends within the two sides.
pub proof fn lemma_script_bounds(hs: Seq<RawHunk>, a: Seq<Seq<char>>, b: Seq<Seq<char>>, k: int)
    requires
        is_edit_script(hs, a, b),
        0 <= k < hs.len(),
    ensures
        hs[k].before_start <= hs[k].before_end <= a.len(),
        hs[k].after_start <= hs[k].after_end <= b.len(),
    decreases hs.len() - k,
{
    assert(change_ok(hs[k]));
    assert(gap_matches(hs, a, b, k + 1));
    if k + 1 < hs.len() {
        lemma_script_bounds(hs, a, b, k + 1);
        assert(change_ok(hs[k + 1]));
    }
}

/// The text of line `i`, without its line ending.
fn line_text(a: &Vec<Vec<char>>, i: u32) -> (r: String)
    requires
        i < a@.len(),
    ensures
        r@ == strip_eol(a@[i as int]@),
{
    let t = strip_line_ending(&a[i as usize]);
    string_of(t.as_slice())
}

/// Unchanged lines up to the old-side index `to`, advancing both sides in step.
fn push_context(
    a: &Vec<Vec<char>>,
    lines: &mut Vec<DiffLine>,
    old_no: &mut u32,
    new_no: &mut u32,
    to: u32,
)
    requires
        to <= a@.len(),
        a@.len() < i32::MAX,
        *old(new_no) + a@.len() < u32::MAX,
    ensures
        line_views(final(lines)@) == line_views(old(lines)@) + context_lines(
            seqs(a@),
            *old(old_no) as int,
            *old(new_no) as int,
            to as int,
        ),
        *final(old_no) == if to > *old(old_no) { to } else { *old(old_no) },
        *final(new_no) == *old(new_no) + (*final(old_no) - *old(old_no)),
{
    let ghost o0 = *old_no;
    let ghost n0 = *new_no;
    let ghost l0 = line_views(lines@);
    while *old_no < to
        invariant
            to <= a@.len() < i32::MAX,
            n0 + a@.len() < u32::MAX,
            o0 <= *old_no,
            o0 < to ==> *old_no <= to,
            to <= o0 ==> *old_no == o0,
            *new_no == n0 + (*old_no - o0),
            line_views(lines@) == l0 + context_lines(seqs(a@), o0 as int, n0 as int, *old_no as int),
        decreases to - *old_no,
    {
        let content = line_text(a, *old_no);
        let line = DiffLine {
            kind: LineKind::Context,
            old_no: Some(*old_no + 1),
            new_no: Some(*new_no + 1),
            content,
        };
        let ghost before = line_views(lines@);
        lines.push(line);
        *old_no = *old_no + 1;
        *new_no = *new_no + 1;
        proof {
            assert(line_views(lines@) =~= before.push(line@));
            assert(context_lines(seqs(a@), o0 as int, n0 as int, *old_no as int) =~= context_lines(
                seqs(a@),
                o0 as int,
                n0 as int,
                (*old_no - 1) as int,
            ).push(line@));
        }
    }
    proof {
        if !(to > o0) {
            assert(context_lines(seqs(a@), o0 as int, n0 as int, to as int) =~= Seq::<
                DiffLineView,
            >::empty());
            assert(context_lines(seqs(a@), o0 as int, n0 as int, o0 as int) =~= Seq::<
                DiffLineView,
            >::empty());
            assert(line_views(lines@) =~= l0);
            assert(l0 + Seq::<DiffLineView>::empty() =~= l0);
        }
    }
}


/// The deleted then added lines of change `c`.
fn push_change(a: &Vec<Vec<char>>, b: &Vec<Vec<char>>, lines: &mut Vec<DiffLine>, c: RawHunk)
    requires
        c.before_start <= c.before_end <= a@.len() < i32::MAX,
        c.after_start <= c.after_end <= b@.len() < i32::MAX,
    ensures
        line_views(final(lines)@) == line_views(old(lines)@) + del_lines(seqs(a@), c) + add_lines(
            seqs(b@),
            c,
        ),
{
    let ghost l0 = line_views(lines@);
    let mut i = c.before_start;
    while i < c.before_end
        invariant
            c.before_start <= i <= c.before_end <= a@.len() < i32::MAX,
            line_views(lines@) == l0 + del_lines(seqs(a@), c).take(i - c.before_start),
        decreases c.before_end - i,
    {
        let content = line_text(a, i);
        // The worktree has no such line, so there is no new-side number.
        let line = DiffLine { kind: LineKind::Del, old_no: Some(i + 1), new_no: None, content };
        let ghost before = line_views(lines@);
        lines.push(line);
        proof {
            assert(line_views(lines@) =~= before.push(line@));
            assert(del_lines(seqs(a@), c).take(i + 1 - c.before_start) =~= del_lines(
                seqs(a@),
                c,
            ).take(i - c.before_start).push(line@));
        }
        i = i + 1;
    }
    let ghost l1 = line_views(lines@);
    proof {
        assert(del_lines(seqs(a@), c).take(c.before_end - c.before_start) =~= del_lines(
            seqs(a@),
            c,
        ));
    }
    let mut j = c.after_start;
    while j < c.after_end
        invariant
            c.after_start <= j <= c.after_end <= b@.len() < i32::MAX,
            l1 == l0 + del_lines(seqs(a@), c),
            line_views(lines@) == l1 + add_lines(seqs(b@), c).take(j - c.after_start),
        decreases c.after_end - j,
    {
        let content = line_text(b, j);
        let line = DiffLine { kind: LineKind::Add, old_no: None, new_no: Some(j + 1), content };
        let ghost before = line_views(lines@);
        lines.push(line);
        proof {
            assert(line_views(lines@) =~= before.push(line@));
            assert(add_lines(seqs(b@), c).take(j + 1 - c.after_start) =~= add_lines(
                seqs(b@),
                c,
            ).take(j - c.after_start).push(line@));
        }
        j = j + 1;
    }
    proof {
        assert(add_lines(seqs(b@), c).take(c.after_end - c.after_start) =~= add_lines(
            seqs(b@),
            c,
        ));
    }
}

/// One side of a hunk header, as `range_text` spells it: git's `start,count`, with the
/// count left out when it is 1 and the start naming the line before when it is 0.
pub fn range(start: u32, count: u32) -> (r: String)
    requires
        count > 0 ==> start < u32::MAX,
    ensures
        r@ == range_text(start as int, count as int),
{
    let first = if count == 0 { start } else { start + 1 };
    let mut r = decimal_chars(first as u64);
    if count != 1 {
        r.push(',');
        let mut c = decimal_chars(count as u64);
        r.append(&mut c);
    }
    string_of(r.as_slice())
}

/// Up to `CONTEXT_LINES` before `x`.
fn lead(x: u32) -> (r: u32)
    ensures
        r == lead_start(x),
{
    if x >= CONTEXT_LINES { x - CONTEXT_LINES } else { 0 }
}

/// Up to `CONTEXT_LINES` after `x`, within `len` lines.
fn trail(x: u32, len: u32) -> (r: u32)
    requires
        x <= len < i32::MAX,
    ensures
        r == trail_end(x, len as int),
{
    if x + CONTEXT_LINES <= len { x + CONTEXT_LINES } else { len }
}

/// `g` is a non-empty run of changes, each non-empty and within `alen` old and `blen` new
/// lines, in increasing order on both sides without overlapping.
pub open spec fn ordered_group(g: Seq<RawHunk>, alen: int, blen: int) -> bool {
    &&& g.len() > 0
    &&& forall|k: int|
        0 <= k < g.len() ==> #[trigger] change_ok(g[k]) && g[k].before_end <= alen
            && g[k].after_end <= blen
    &&& forall|j: int, k: int|
        0 <= j < k < g.len() ==> (#[trigger] g[j]).before_end <= (#[trigger] g[k]).before_start
            && g[j].after_end <= g[k].after_start
}

/// Any run of changes of an edit script is an ordered group.
proof fn lemma_script_group_ordered(hs: Seq<RawHunk>, a: Seq<Seq<char>>, b: Seq<Seq<char>>, s: int, e: int)
    requires
        is_edit_script(hs, a, b),
        0 <= s < e <= hs.len(),
    ensures
        ordered_group(hs.subrange(s, e), a.len() as int, b.len() as int),
{
    let g = hs.subrange(s, e);
    assert forall|k: int| 0 <= k < g.len() implies #[trigger] change_ok(g[k]) && g[k].before_end
        <= a.len() && g[k].after_end <= b.len() by {
        assert(g[k] == hs[s + k]);
        lemma_script_bounds(hs, a, b, s + k);
        assert(change_ok(hs[s + k]));
    }
    assert forall|j: int, k: int| 0 <= j < k < g.len() implies (#[trigger] g[j]).before_end <= (
    #[trigger] g[k]).before_start && g[j].after_end <= g[k].after_start by {
        assert(g[j] == hs[s + j] && g[k] == hs[s + k]);
        lemma_script_monotone(hs, a, b, s + j, s + k - 1);
        assert(gap_matches(hs, a, b, s + k));
    }
}

/// One hunk: the changes `hs[s..e]`, the unchanged lines between them, and up to
/// `CONTEXT_LINES` of context either end, numbered on the old side from the clamped old
/// start and on the new side from the clamped new start, with the header naming those
/// starts and the clamped ends. Any ordered run of changes is accepted; `hunks` hands it
/// the runs git would make into one hunk.
fn build_hunk(a: &Vec<Vec<char>>, b: &Vec<Vec<char>>, hs: &Vec<RawHunk>, s: usize, e: usize) -> (r:
    DiffHunk)
    requires
        a@.len() < i32::MAX,
        b@.len() < i32::MAX,
        s < e <= hs@.len(),
        ordered_group(hs@.subrange(s as int, e as int), a@.len() as int, b@.len() as int),
    ensures
        r@ == hunk_of(seqs(a@), seqs(b@), hs@.subrange(s as int, e as int)),
{
    let ghost sa = seqs(a@);
    let ghost sb = seqs(b@);
    let ghost g = hs@.subrange(s as int, e as int);
    let alen = a.len() as u32;
    let blen = b.len() as u32;
    let first = hs[s];
    let last = hs[e - 1];
    proof {
        assert(g[0] == first);
        assert(g[e - s - 1] == last);
        assert(g.last() == last);
        assert(change_ok(g[0]));
        assert(change_ok(g[e - s - 1]));
        if e - s > 1 {
            assert(g[0].before_end <= g[e - s - 1].before_start);
        }
    }
    let old_start = lead(first.before_start);
    let new_start = lead(first.after_start);
    let old_end = trail(last.before_end, alen);
    let new_end = trail(last.after_end, blen);
    let mut lines: Vec<DiffLine> = Vec::new();
    let mut old_no = old_start;
    let mut new_no = new_start;
    let mut k = s;
    proof {
        assert(line_views(lines@) =~= Seq::<DiffLineView>::empty());
        assert(line_views(lines@) + hunk_body(sa, sb, g, 0, old_start as int, new_start as int, old_end as int) =~= hunk_body(sa, sb, g, 0, old_start as int, new_start as int, old_end as int));
    }
    while k < e
        invariant
            sa == seqs(a@),
            sb == seqs(b@),
            g == hs@.subrange(s as int, e as int),
            ordered_group(g, alen as int, blen as int),
            alen == a@.len() < i32::MAX,
            blen == b@.len() < i32::MAX,
            s <= k <= e <= hs@.len(),
            old_no <= alen,
            new_no <= blen,
            line_views(lines@) + hunk_body(sa, sb, g, k - s, old_no as int, new_no as int, old_end as int)
                == hunk_body(sa, sb, g, 0, old_start as int, new_start as int, old_end as int),
        decreases e - k,
    {
        let c = hs[k];
        proof {
            assert(g[k - s] == c);
            assert(change_ok(g[k - s]));
        }
        let ghost lines_before = line_views(lines@);
        let ghost op = old_no;
        let ghost np = new_no;
        push_context(a, &mut lines, &mut old_no, &mut new_no, c.before_start);
        push_change(a, b, &mut lines, c);
        old_no = c.before_end;
        new_no = c.after_end;
        k = k + 1;
        proof {
            assert(hunk_body(sa, sb, g, k - 1 - s, op as int, np as int, old_end as int) == context_lines(
                sa,
                op as int,
                np as int,
                c.before_start as int,
            ) + del_lines(sa, c) + add_lines(sb, c) + hunk_body(
                sa,
                sb,
                g,
                k - s,
                c.before_end as int,
                c.after_end as int,
                old_end as int,
            ));
            assert(line_views(lines@) == lines_before + context_lines(sa, op as int, np as int, c.before_start as int) + del_lines(sa, c) + add_lines(sb, c));
            assert(line_views(lines@) + hunk_body(sa, sb, g, k - s, old_no as int, new_no as int, old_end as int)
                =~= lines_before + hunk_body(sa, sb, g, k - 1 - s, op as int, np as int, old_end as int));
        }
    }
    let ghost lines_before = line_views(lines@);
    let ghost op = old_no;
    let ghost np = new_no;
    push_context(a, &mut lines, &mut old_no, &mut new_no, old_end);
    proof {
        assert(hunk_body(sa, sb, g, e - s, op as int, np as int, old_end as int) == context_lines(sa, op as int, np as int, old_end as int));
    }
    let mut header = String::new();
    append_str(&mut header, "@@ -");
    append_str(&mut header, range(old_start, old_end - old_start).as_str());
    append_str(&mut header, " +");
    append_str(&mut header, range(new_start, new_end - new_start).as_str());
    append_str(&mut header, " @@");
    proof {
        reveal_strlit("@@ -");
        reveal_strlit(" +");
        reveal_strlit(" @@");
        assert(header@ =~= header_text(old_start as int, old_end - old_start, new_start as int, new_end - new_start));
    }
    let r = DiffHunk { header, lines };
    proof {
        assert(r@.lines =~= hunk_body(sa, sb, g, 0, old_start as int, new_start as int, old_end as int));
    }
    r
}

/// Groups the changed ranges into hunks the way git does: two changes whose context
/// lines would touch are one hunk, not two with a gap of repeated lines between them.
fn hunks(a: &Vec<Vec<char>>, b: &Vec<Vec<char>>, hs: &Vec<RawHunk>) -> (r: Vec<DiffHunk>)
    requires
        is_edit_script(hs@, seqs(a@), seqs(b@)),
        a@.len() < i32::MAX,
        b@.len() < i32::MAX,
    ensures
        hunk_views(r@) == hunks_of(seqs(a@), seqs(b@), hs@),
{
    let ghost sa = seqs(a@);
    let ghost sb = seqs(b@);
    let ghost f = |g: Seq<RawHunk>| hunk_of(sa, sb, g);
    let mut out: Vec<DiffHunk> = Vec::new();
    let mut s: usize = 0;
    let mut i: usize = 0;
    proof {
        assert(hunk_views(out@) + groups_from(hs@, 0, 0).map_values(f) =~= hunks_of(sa, sb, hs@));
    }
    while i < hs.len()
        invariant
            is_edit_script(hs@, sa, sb),
            sa == seqs(a@),
            sb == seqs(b@),
            f == |g: Seq<RawHunk>| hunk_of(sa, sb, g),
            a@.len() < i32::MAX,
            b@.len() < i32::MAX,
            s <= i <= hs@.len(),
            i == 0 ==> s == 0,
            s < hs@.len() ==> starts_hunk(hs@, s as int),
            i > 0 ==> s < i,
            hunk_views(out@) + groups_from(hs@, s as int, i as int).map_values(f) == hunks_of(
                sa,
                sb,
                hs@,
            ),
        decreases hs.len() - i,
    {
        if i > s {
            proof {
                assert(gap_matches(hs@, sa, sb, i as int));
            }
        }
        if i > s && hs[i].before_start - hs[i - 1].before_end > 2 * CONTEXT_LINES {
            proof {
                lemma_script_group_ordered(hs@, sa, sb, s as int, i as int);
            }
            let h = build_hunk(a, b, hs, s, i);
            let ghost before = hunk_views(out@);
            out.push(h);
            proof {
                assert(hunk_views(out@) =~= before.push(h@));
                assert(groups_from(hs@, s as int, i as int) == seq![hs@.subrange(s as int, i as int)]
                    + groups_from(hs@, i as int, i + 1));
                assert(groups_from(hs@, s as int, i as int).map_values(f) =~= seq![h@]
                    + groups_from(hs@, i as int, i + 1).map_values(f));
                assert(hunk_views(out@) + groups_from(hs@, i as int, i + 1).map_values(f) =~= before
                    + groups_from(hs@, s as int, i as int).map_values(f));
            }
            s = i;
        } else {
            proof {
                assert(groups_from(hs@, s as int, i as int) == groups_from(hs@, s as int, i + 1));
            }
        }
        i = i + 1;
    }
    if s < hs.len() {
        proof {
            lemma_script_group_ordered(hs@, sa, sb, s as int, hs@.len() as int);
        }
        let h = build_hunk(a, b, hs, s, hs.len());
        let ghost before = hunk_views(out@);
        out.push(h);
        proof {
            assert(groups_from(hs@, s as int, hs@.len() as int) == seq![hs@.subrange(s as int, hs@.len() as int)]);
            assert(groups_from(hs@, s as int, hs@.len() as int).map_values(f) =~= seq![h@]);
            assert(hunk_views(out@) =~= before.push(h@));
        }
    } else {
        proof {
            assert(groups_from(hs@, s as int, hs@.len() as int).map_values(f) =~= Seq::<DiffHunkView>::empty());
        }
    }
    proof {
        assert(hunk_views(out@) =~= hunks_of(sa, sb, hs@));
    }
    out
}

/// Both sides fit the line diff: fewer than `i32::MAX` lines each, when both are text.
pub open spec fn diffable(old: Seq<u8>, new: Seq<u8>) -> bool {
    valid_utf8(old) && valid_utf8(new) ==> {
        &&& lines_of(decode_utf8(old)).len() < i32::MAX
        &&& lines_of(decode_utf8(new)).len() < i32::MAX
    }
}

/// The line-level diff of one file, as hunks the frontend renders directly, with both
/// sides in full.
///
/// A side that is not UTF-8 has no lines to number, so the file is reported as binary,
/// with no hunks, rather than as unchanged. Otherwise the hunks are those of gix's
/// histogram line diff, grouped and numbered as `text_hunks` says: a deleted line carries
/// no new-side number, since the worktree has no such line for a Comment to anchor to.
pub fn file_diff(old: &[u8], new: &[u8]) -> (r: FileDiff)
    requires
        diffable(old@, new@),
    ensures
        r.binary <==> !(valid_utf8(old@) && valid_utf8(new@)),
        r.binary ==> r.hunks@.len() == 0 && r.old_text@.len() == 0 && r.new_text@.len() == 0,
        !r.binary ==> {
            &&& r.old_text@ == decode_utf8(old@)
            &&& r.new_text@ == decode_utf8(new@)
            &&& hunk_views(r.hunks@) == text_hunks(decode_utf8(old@), decode_utf8(new@))
            &&& is_edit_script(
                histogram_hunks(decode_utf8(old@), decode_utf8(new@)),
                lines_of(decode_utf8(old@)),
                lines_of(decode_utf8(new@)),
            )
            &&& forall|h: int|
                0 <= h < r.hunks@.len() ==> all_name_their_lines(
                    lines_of(decode_utf8(old@)),
                    lines_of(decode_utf8(new@)),
                    #[trigger] hunk_views(r.hunks@)[h].lines,
                )
        },
{
    let (o, n) = match (utf8_str(old), utf8_str(new)) {
        (Some(o), Some(n)) => (o, n),
        _ => {
            return FileDiff {
                hunks: Vec::new(),
                binary: true,
                old_text: String::new(),
                new_text: String::new(),
            };
        },
    };
    let raw = histogram_diff(o, n);
    let a = lines_with_terminators(&chars_of(o));
    let b = lines_with_terminators(&chars_of(n));
    let hs = hunks(&a, &b, &raw);
    proof {
        assert forall|h: int| 0 <= h < hs@.len() implies all_name_their_lines(
            lines_of(o@),
            lines_of(n@),
            #[trigger] hunk_views(hs@)[h].lines,
        ) by {
            law_hunk_lines_name_their_lines(lines_of(o@), lines_of(n@), raw@, h);
        }
    }
    FileDiff { hunks: hs, binary: false, old_text: o.to_owned(), new_text: n.to_owned() }
}

/// Lines added before change `k` are no more than where change `k - 1` ends on the new
/// side; likewise for deletions on the old side.
proof fn lemma_totals_bounded(hs: Seq<RawHunk>, a: Seq<Seq<char>>, b: Seq<Seq<char>>, k: int)
    requires
        is_edit_script(hs, a, b),
        0 <= k <= hs.len(),
    ensures
        0 <= total_added(hs.take(k)) <= if k == 0 { 0 } else { hs[k - 1].after_end as int },
        0 <= total_deleted(hs.take(k)) <= if k == 0 { 0 } else { hs[k - 1].before_end as int },
    decreases k,
{
    if k > 0 {
        lemma_totals_bounded(hs, a, b, k - 1);
        assert(hs.take(k).drop_last() =~= hs.take(k - 1));
        assert(change_ok(hs[k - 1]));
        assert(gap_matches(hs, a, b, k - 1));
    }
}

/// How many lines were added and deleted between the two sides: the sizes of the
/// changes the same histogram diff finds, so the counts and the hunks `file_diff` shows
/// cannot tell different stories. A file that is not text on both sides reports zero of
/// each while still being listed as changed.
pub fn count_changes(old: &[u8], new: &[u8]) -> (r: Changes)
    requires
        diffable(old@, new@),
    ensures
        !(valid_utf8(old@) && valid_utf8(new@)) ==> r == (Changes { add: 0, del: 0 }),
        valid_utf8(old@) && valid_utf8(new@) ==> {
            &&& r.add == total_added(histogram_hunks(decode_utf8(old@), decode_utf8(new@)))
            &&& r.del == total_deleted(histogram_hunks(decode_utf8(old@), decode_utf8(new@)))
        },
{
    let (o, n) = match (utf8_str(old), utf8_str(new)) {
        (Some(o), Some(n)) => (o, n),
        _ => {
            return Changes { add: 0, del: 0 };
        },
    };
    let raw = histogram_diff(o, n);
    let ghost a = lines_of(o@);
    let ghost b = lines_of(n@);
    let mut add: u32 = 0;
    let mut del: u32 = 0;
    let mut k: usize = 0;
    while k < raw.len()
        invariant
            is_edit_script(raw@, a, b),
            a.len() < i32::MAX,
            b.len() < i32::MAX,
            k <= raw@.len(),
            add == total_added(raw@.take(k as int)),
            del == total_deleted(raw@.take(k as int)),
        decreases raw.len() - k,
    {
        let c = raw[k];
        proof {
            lemma_totals_bounded(raw@, a, b, k as int);
            lemma_script_bounds(raw@, a, b, k as int);
            assert(gap_matches(raw@, a, b, k as int));
            assert(raw@.take(k + 1).drop_last() =~= raw@.take(k as int));
        }
        add = add + (c.after_end - c.after_start);
        del = del + (c.before_end - c.before_start);
        k = k + 1;
    }
    proof {
        assert(raw@.take(raw@.len() as int) =~= raw@);
    }
    Changes { add, del }
}


// ---------------------------------------------------------------------------------------
// What the hunks promise.

/// Line `l` names the lines it shows: a context line is line `old_no` of the old side and
/// line `new_no` of the new side, and both read the same; a deleted line is line `old_no`
/// of the old side and has no new-side number; an added line is line `new_no` of the new
/// side and has no old-side number. Numbers are 1-based and within the side.
pub open spec fn names_its_line(a: Seq<Seq<char>>, b: Seq<Seq<char>>, l: DiffLineView) -> bool {
    match l.kind {
        LineKind::Context => {
            &&& l.old_no matches Some(o) && 1 <= o <= a.len() && l.content == strip_eol(a[o - 1])
            &&& l.new_no matches Some(n) && 1 <= n <= b.len() && l.content == strip_eol(b[n - 1])
        },
        LineKind::Del => {
            &&& l.old_no matches Some(o) && 1 <= o <= a.len() && l.content == strip_eol(a[o - 1])
            &&& l.new_no is None
        },
        LineKind::Add => {
            &&& l.old_no is None
            &&& l.new_no matches Some(n) && 1 <= n <= b.len() && l.content == strip_eol(b[n - 1])
        },
    }
}

pub open spec fn all_name_their_lines(a: Seq<Seq<char>>, b: Seq<Seq<char>>, ls: Seq<DiffLineView>) -> bool {
    forall|j: int| 0 <= j < ls.len() ==> #[trigger] names_its_line(a, b, ls[j])
}

proof fn lemma_all_name_concat(a: Seq<Seq<char>>, b: Seq<Seq<char>>, x: Seq<DiffLineView>, y: Seq<DiffLineView>)
    requires
        all_name_their_lines(a, b, x),
        all_name_their_lines(a, b, y),
    ensures
        all_name_their_lines(a, b, x + y),
{
    assert forall|j: int| 0 <= j < (x + y).len() implies #[trigger] names_its_line(a, b, (x + y)[j]) by {
        if j < x.len() {
            assert((x + y)[j] == x[j]);
        } else {
            assert((x + y)[j] == y[j - x.len()]);
        }
    }
}

/// The bounds of the `m`-th hunk's changes: a run `hs[s..e]` that starts a hunk and is
/// followed by the end or by a change that starts the next one.
proof fn lemma_group_bounds(hs: Seq<RawHunk>, s: int, i: int, m: int) -> (r: (int, int))
    requires
        0 <= s <= i <= hs.len(),
        s < hs.len() ==> starts_hunk(hs, s),
        0 <= m < groups_from(hs, s, i).len(),
    ensures
        0 <= r.0 < r.1 <= hs.len(),
        starts_hunk(hs, r.0),
        r.1 == hs.len() || starts_hunk(hs, r.1),
        groups_from(hs, s, i)[m] == hs.subrange(r.0, r.1),
        m == 0 ==> r.0 == s,
    decreases hs.len() - i,
{
    if i >= hs.len() {
        (s, hs.len() as int)
    } else if i > s && starts_hunk(hs, i) {
        if m == 0 {
            (s, i)
        } else {
            assert(groups_from(hs, s, i)[m] == groups_from(hs, i, i + 1)[m - 1]);
            lemma_group_bounds(hs, i, i + 1, m - 1)
        }
    } else {
        lemma_group_bounds(hs, s, i + 1, m)
    }
}

/// Context lines taken from the `k`-th unchanged run, at the same offset on both sides.
proof fn lemma_context_names(
    hs: Seq<RawHunk>,
    a: Seq<Seq<char>>,
    b: Seq<Seq<char>>,
    k: int,
    op: int,
    np: int,
    to: int,
)
    requires
        is_edit_script(hs, a, b),
        a.len() < i32::MAX,
        b.len() < i32::MAX,
        0 <= k <= hs.len(),
        gap_old_start(hs, k) <= op,
        op - gap_old_start(hs, k) == np - gap_new_start(hs, k),
        to <= gap_old_end(hs, a.len() as int, k),
    ensures
        all_name_their_lines(a, b, context_lines(a, op, np, to)),
{
    assert(gap_matches(hs, a, b, k));
    if k > 0 {
        lemma_script_bounds(hs, a, b, k - 1);
    }
    if k < hs.len() {
        lemma_script_bounds(hs, a, b, k);
    }
    let os = gap_old_start(hs, k);
    let ns = gap_new_start(hs, k);
    let c = context_lines(a, op, np, to);
    assert forall|j: int| 0 <= j < c.len() implies #[trigger] names_its_line(a, b, c[j]) by {
        let jj = op - os + j;
        assert(0 <= jj < gap_old_end(hs, a.len() as int, k) - os);
        assert(a[os + jj] == b[ns + jj]);
        assert(os + jj == op + j);
        assert(ns + jj == np + j);
    }
}

/// The deleted and added lines of change `k`.
proof fn lemma_change_names(hs: Seq<RawHunk>, a: Seq<Seq<char>>, b: Seq<Seq<char>>, k: int)
    requires
        is_edit_script(hs, a, b),
        a.len() < i32::MAX,
        b.len() < i32::MAX,
        0 <= k < hs.len(),
    ensures
        all_name_their_lines(a, b, del_lines(a, hs[k])),
        all_name_their_lines(a, b, add_lines(b, hs[k])),
{
    lemma_script_bounds(hs, a, b, k);
}

/// Every line of a hunk body names its line, when the body starts inside the unchanged
/// run before its next change, at the same offset on both sides.
proof fn lemma_body_names(
    hs: Seq<RawHunk>,
    a: Seq<Seq<char>>,
    b: Seq<Seq<char>>,
    s: int,
    e: int,
    i: int,
    op: int,
    np: int,
    oe: int,
)
    requires
        is_edit_script(hs, a, b),
        a.len() < i32::MAX,
        b.len() < i32::MAX,
        0 <= s < e <= hs.len(),
        0 <= i <= e - s,
        gap_old_start(hs, s + i) <= op,
        op - gap_old_start(hs, s + i) == np - gap_new_start(hs, s + i),
        oe <= gap_old_end(hs, a.len() as int, e),
    ensures
        all_name_their_lines(a, b, hunk_body(a, b, hs.subrange(s, e), i, op, np, oe)),
    decreases e - s - i,
{
    let g = hs.subrange(s, e);
    if i == e - s {
        lemma_context_names(hs, a, b, e, op, np, oe);
    } else {
        let k = s + i;
        let h = hs[k];
        assert(g[i] == h);
        lemma_context_names(hs, a, b, k, op, np, h.before_start as int);
        lemma_change_names(hs, a, b, k);
        lemma_body_names(hs, a, b, s, e, i + 1, h.before_end as int, h.after_end as int, oe);
        let c = context_lines(a, op, np, h.before_start as int);
        let d = del_lines(a, h);
        let ad = add_lines(b, h);
        let rest = hunk_body(a, b, g, i + 1, h.before_end as int, h.after_end as int, oe);
        lemma_all_name_concat(a, b, c, d);
        lemma_all_name_concat(a, b, c + d, ad);
        lemma_all_name_concat(a, b, c + d + ad, rest);
    }
}

/// The hunk made of changes `hs[s..e]` names its lines.
proof fn lemma_hunk_names(hs: Seq<RawHunk>, a: Seq<Seq<char>>, b: Seq<Seq<char>>, s: int, e: int)
    requires
        is_edit_script(hs, a, b),
        a.len() < i32::MAX,
        b.len() < i32::MAX,
        0 <= s < e <= hs.len(),
        starts_hunk(hs, s),
        e == hs.len() || starts_hunk(hs, e),
    ensures
        all_name_their_lines(a, b, hunk_of(a, b, hs.subrange(s, e)).lines),
{
    let g = hs.subrange(s, e);
    assert(gap_matches(hs, a, b, s));
    assert(gap_matches(hs, a, b, e));
    lemma_script_bounds(hs, a, b, s);
    lemma_script_bounds(hs, a, b, e - 1);
    if s > 0 {
        lemma_script_bounds(hs, a, b, s - 1);
    }
    if e < hs.len() {
        lemma_script_bounds(hs, a, b, e);
    }
    assert(g[0] == hs[s]);
    assert(g.last() == hs[e - 1]);
    lemma_body_names(hs, a, b, s, e, 0, hunk_old_start(g), hunk_new_start(g), hunk_old_end(a, g));
}

/// Every line of every hunk names the line it shows, on the side or sides it belongs to:
/// a deleted line has an old-side number only, an added line a new-side number only, and
/// a context line both, with the same text on each side. This is what lets a Comment's
/// `path:L12` point at the line the user saw.
pub proof fn law_hunk_lines_name_their_lines(
    a: Seq<Seq<char>>,
    b: Seq<Seq<char>>,
    hs: Seq<RawHunk>,
    h: int,
)
    requires
        is_edit_script(hs, a, b),
        a.len() < i32::MAX,
        b.len() < i32::MAX,
        0 <= h < hunks_of(a, b, hs).len(),
    ensures
        all_name_their_lines(a, b, hunks_of(a, b, hs)[h].lines),
{
    if hs.len() > 0 {
        assert(starts_hunk(hs, 0));
    }
    let (s, e) = lemma_group_bounds(hs, 0, 0, h);
    lemma_hunk_names(hs, a, b, s, e);
}


/// Lines of kind `k`.
pub open spec fn count_kind(ls: Seq<DiffLineView>, k: LineKind) -> int
    decreases ls.len(),
{
    if ls.len() == 0 {
        0
    } else {
        count_kind(ls.drop_last(), k) + if ls.last().kind == k { 1int } else { 0int }
    }
}

/// Lines of kind `k` over all hunks.
pub open spec fn hunks_count(hv: Seq<DiffHunkView>, k: LineKind) -> int
    decreases hv.len(),
{
    if hv.len() == 0 {
        0
    } else {
        count_kind(hv[0].lines, k) + hunks_count(hv.drop_first(), k)
    }
}

proof fn lemma_count_concat(x: Seq<DiffLineView>, y: Seq<DiffLineView>, k: LineKind)
    ensures
        count_kind(x + y, k) == count_kind(x, k) + count_kind(y, k),
    decreases y.len(),
{
    if y.len() > 0 {
        lemma_count_concat(x, y.drop_last(), k);
        assert((x + y).drop_last() =~= x + y.drop_last());
    } else {
        assert(x + y =~= x);
    }
}

/// A run of lines all of kind `k0` has that many of `k0` and none of any other kind.
proof fn lemma_count_uniform(ls: Seq<DiffLineView>, k0: LineKind, k: LineKind)
    requires
        forall|j: int| 0 <= j < ls.len() ==> (#[trigger] ls[j]).kind == k0,
    ensures
        count_kind(ls, k) == if k == k0 { ls.len() as int } else { 0 },
    decreases ls.len(),
{
    if ls.len() > 0 {
        lemma_count_uniform(ls.drop_last(), k0, k);
    }
}

proof fn lemma_total_concat(x: Seq<RawHunk>, y: Seq<RawHunk>)
    ensures
        total_added(x + y) == total_added(x) + total_added(y),
        total_deleted(x + y) == total_deleted(x) + total_deleted(y),
    decreases y.len(),
{
    if y.len() > 0 {
        lemma_total_concat(x, y.drop_last());
        assert((x + y).drop_last() =~= x + y.drop_last());
    } else {
        assert(x + y =~= x);
    }
}

/// The added and deleted lines of a hunk body are those of its changes from `i` on.
proof fn lemma_body_counts(
    a: Seq<Seq<char>>,
    b: Seq<Seq<char>>,
    g: Seq<RawHunk>,
    i: int,
    op: int,
    np: int,
    oe: int,
)
    requires
        0 <= i <= g.len(),
        forall|k: int| 0 <= k < g.len() ==> #[trigger] change_ok(g[k]),
    ensures
        count_kind(hunk_body(a, b, g, i, op, np, oe), LineKind::Add) == total_added(
            g.subrange(i, g.len() as int),
        ),
        count_kind(hunk_body(a, b, g, i, op, np, oe), LineKind::Del) == total_deleted(
            g.subrange(i, g.len() as int),
        ),
    decreases g.len() - i,
{
    let c0 = context_lines(a, op, np, oe);
    if i == g.len() {
        lemma_count_uniform(c0, LineKind::Context, LineKind::Add);
        lemma_count_uniform(c0, LineKind::Context, LineKind::Del);
        assert(hunk_body(a, b, g, i, op, np, oe) == c0);
        assert(g.subrange(i, g.len() as int) =~= Seq::<RawHunk>::empty());
        assert(total_added(Seq::<RawHunk>::empty()) == 0);
        assert(total_deleted(Seq::<RawHunk>::empty()) == 0);
    } else {
        let h = g[i];
        assert(change_ok(h));
        let c = context_lines(a, op, np, h.before_start as int);
        let d = del_lines(a, h);
        let ad = add_lines(b, h);
        let rest = hunk_body(a, b, g, i + 1, h.before_end as int, h.after_end as int, oe);
        lemma_body_counts(a, b, g, i + 1, h.before_end as int, h.after_end as int, oe);
        assert(hunk_body(a, b, g, i, op, np, oe) == c + d + ad + rest);
        lemma_count_uniform(c, LineKind::Context, LineKind::Add);
        lemma_count_uniform(c, LineKind::Context, LineKind::Del);
        lemma_count_uniform(d, LineKind::Del, LineKind::Add);
        lemma_count_uniform(d, LineKind::Del, LineKind::Del);
        lemma_count_uniform(ad, LineKind::Add, LineKind::Add);
        lemma_count_uniform(ad, LineKind::Add, LineKind::Del);
        lemma_count_concat(c, d, LineKind::Add);
        lemma_count_concat(c + d, ad, LineKind::Add);
        lemma_count_concat(c + d + ad, rest, LineKind::Add);
        lemma_count_concat(c, d, LineKind::Del);
        lemma_count_concat(c + d, ad, LineKind::Del);
        lemma_count_concat(c + d + ad, rest, LineKind::Del);
        assert(g.subrange(i, g.len() as int) =~= seq![h] + g.subrange(i + 1, g.len() as int));
        lemma_total_concat(seq![h], g.subrange(i + 1, g.len() as int));
        assert(seq![h].drop_last() =~= Seq::<RawHunk>::empty());
        assert(total_added(Seq::<RawHunk>::empty()) == 0);
        assert(total_deleted(Seq::<RawHunk>::empty()) == 0);
        assert(total_added(seq![h]) == h.after_end - h.after_start);
        assert(total_deleted(seq![h]) == h.before_end - h.before_start);
    }
}

/// The hunks made of the groups from change `i` on count the changes from the start of
/// the current group.
proof fn lemma_groups_counts(a: Seq<Seq<char>>, b: Seq<Seq<char>>, hs: Seq<RawHunk>, s: int, i: int)
    requires
        0 <= s <= i <= hs.len(),
        forall|k: int| 0 <= k < hs.len() ==> #[trigger] change_ok(hs[k]),
    ensures
        hunks_count(groups_from(hs, s, i).map_values(|g: Seq<RawHunk>| hunk_of(a, b, g)), LineKind::Add)
            == total_added(hs.subrange(s, hs.len() as int)),
        hunks_count(groups_from(hs, s, i).map_values(|g: Seq<RawHunk>| hunk_of(a, b, g)), LineKind::Del)
            == total_deleted(hs.subrange(s, hs.len() as int)),
    decreases hs.len() - i,
{
    let f = |g: Seq<RawHunk>| hunk_of(a, b, g);
    let gs = groups_from(hs, s, i);
    if i >= hs.len() {
        if s < hs.len() {
            let g = hs.subrange(s, hs.len() as int);
            assert forall|k: int| 0 <= k < g.len() implies #[trigger] change_ok(g[k]) by {
                assert(g[k] == hs[s + k]);
            }
            lemma_body_counts(a, b, g, 0, hunk_old_start(g), hunk_new_start(g), hunk_old_end(a, g));
            assert(g.subrange(0, g.len() as int) =~= g);
            assert(gs.map_values(f).drop_first() =~= Seq::<DiffHunkView>::empty());
            assert(hunks_count(Seq::<DiffHunkView>::empty(), LineKind::Add) == 0);
            assert(hunks_count(Seq::<DiffHunkView>::empty(), LineKind::Del) == 0);
            assert(gs.map_values(f)[0] == hunk_of(a, b, g));
        } else {
            assert(hs.subrange(s, hs.len() as int) =~= Seq::<RawHunk>::empty());
            assert(gs.map_values(f) =~= Seq::<DiffHunkView>::empty());
            assert(total_added(Seq::<RawHunk>::empty()) == 0);
            assert(total_deleted(Seq::<RawHunk>::empty()) == 0);
        }
    } else if i > s && starts_hunk(hs, i) {
        let g = hs.subrange(s, i);
        assert forall|k: int| 0 <= k < g.len() implies #[trigger] change_ok(g[k]) by {
            assert(g[k] == hs[s + k]);
        }
        lemma_body_counts(a, b, g, 0, hunk_old_start(g), hunk_new_start(g), hunk_old_end(a, g));
        assert(g.subrange(0, g.len() as int) =~= g);
        lemma_groups_counts(a, b, hs, i, i + 1);
        assert(gs.map_values(f).drop_first() =~= groups_from(hs, i, i + 1).map_values(f));
        assert(gs.map_values(f)[0] == hunk_of(a, b, g));
        assert(hs.subrange(s, hs.len() as int) =~= g + hs.subrange(i, hs.len() as int));
        lemma_total_concat(g, hs.subrange(i, hs.len() as int));
    } else {
        lemma_groups_counts(a, b, hs, s, i + 1);
    }
}

/// The `+`/`-` counts and the hunks tell the same story: over all hunks there are as many
/// added lines as the changes add, and as many deleted lines as they delete -- which is
/// what `count_changes` reports for the same two sides.
pub proof fn law_counts_match_hunks(a: Seq<Seq<char>>, b: Seq<Seq<char>>, hs: Seq<RawHunk>)
    requires
        is_edit_script(hs, a, b),
    ensures
        hunks_count(hunks_of(a, b, hs), LineKind::Add) == total_added(hs),
        hunks_count(hunks_of(a, b, hs), LineKind::Del) == total_deleted(hs),
{
    lemma_groups_counts(a, b, hs, 0, 0);
    assert(hs.subrange(0, hs.len() as int) =~= hs);
}

/// The diff of a path that does not differ in this Diff Mode: no hunks, and not binary.
/// The frontend opens File View for such a path, so this only answers for a file whose
/// tree node lost its counts between the tree load and the click.
pub fn unchanged_diff() -> (r: FileDiff)
    ensures
        r.hunks@.len() == 0,
        !r.binary,
        r.old_text@.len() == 0,
        r.new_text@.len() == 0,
{
    FileDiff { hunks: Vec::new(), binary: false, old_text: String::new(), new_text: String::new() }
}

/// The old-side numbers of the lines that have one, in order.
pub open spec fn old_numbers(ls: Seq<DiffLineView>) -> Seq<int>
    decreases ls.len(),
{
    if ls.len() == 0 {
        seq![]
    } else {
        let r = old_numbers(ls.drop_last());
        match ls.last().old_no {
            Some(n) => r.push(n as int),
            None => r,
        }
    }
}

/// The new-side numbers of the lines that have one, in order.
pub open spec fn new_numbers(ls: Seq<DiffLineView>) -> Seq<int>
    decreases ls.len(),
{
    if ls.len() == 0 {
        seq![]
    } else {
        let r = new_numbers(ls.drop_last());
        match ls.last().new_no {
            Some(n) => r.push(n as int),
            None => r,
        }
    }
}

/// The line numbers `lo + 1` through `hi`.
pub open spec fn span(lo: int, hi: int) -> Seq<int> {
    Seq::new(if hi > lo { (hi - lo) as nat } else { 0 }, |k: int| lo + k + 1)
}

proof fn lemma_numbers_concat(x: Seq<DiffLineView>, y: Seq<DiffLineView>)
    ensures
        old_numbers(x + y) == old_numbers(x) + old_numbers(y),
        new_numbers(x + y) == new_numbers(x) + new_numbers(y),
    decreases y.len(),
{
    if y.len() == 0 {
        assert(x + y =~= x);
        assert(old_numbers(x) + old_numbers(y) =~= old_numbers(x));
        assert(new_numbers(x) + new_numbers(y) =~= new_numbers(x));
    } else {
        assert((x + y).drop_last() =~= x + y.drop_last());
        assert((x + y).last() == y.last());
        lemma_numbers_concat(x, y.drop_last());
        assert((old_numbers(x) + old_numbers(y.drop_last())).push(0) =~= old_numbers(x) + old_numbers(
            y.drop_last(),
        ).push(0));
        match y.last().old_no {
            Some(n) => {
                assert((old_numbers(x) + old_numbers(y.drop_last())).push(n as int) =~= old_numbers(x)
                    + old_numbers(y.drop_last()).push(n as int));
            },
            None => {},
        }
        match y.last().new_no {
            Some(n) => {
                assert((new_numbers(x) + new_numbers(y.drop_last())).push(n as int) =~= new_numbers(x)
                    + new_numbers(y.drop_last()).push(n as int));
            },
            None => {},
        }
    }
}

proof fn lemma_span_concat(lo: int, mid: int, hi: int)
    requires
        lo <= mid <= hi,
    ensures
        span(lo, mid) + span(mid, hi) == span(lo, hi),
{
    assert(span(lo, mid) + span(mid, hi) =~= span(lo, hi));
}

/// Lines numbered `lo + 1`, `lo + 2`, ... on the old side.
proof fn lemma_old_numbered(ls: Seq<DiffLineView>, lo: int)
    requires
        0 <= lo,
        lo + ls.len() <= u32::MAX,
        forall|j: int| 0 <= j < ls.len() ==> (#[trigger] ls[j]).old_no == Some((lo + j + 1) as u32),
    ensures
        old_numbers(ls) == span(lo, lo + ls.len()),
    decreases ls.len(),
{
    if ls.len() == 0 {
        assert(span(lo, lo) =~= Seq::<int>::empty());
    } else {
        let t = ls.drop_last();
        assert forall|j: int| 0 <= j < t.len() implies (#[trigger] t[j]).old_no == Some(
            (lo + j + 1) as u32,
        ) by {
            assert(t[j] == ls[j]);
        }
        lemma_old_numbered(t, lo);
        assert(ls.last() == ls[ls.len() - 1]);
        assert(span(lo, lo + ls.len()) =~= span(lo, lo + t.len()).push(lo + ls.len()));
    }
}

/// Lines numbered `lo + 1`, `lo + 2`, ... on the new side.
proof fn lemma_new_numbered(ls: Seq<DiffLineView>, lo: int)
    requires
        0 <= lo,
        lo + ls.len() <= u32::MAX,
        forall|j: int| 0 <= j < ls.len() ==> (#[trigger] ls[j]).new_no == Some((lo + j + 1) as u32),
    ensures
        new_numbers(ls) == span(lo, lo + ls.len()),
    decreases ls.len(),
{
    if ls.len() == 0 {
        assert(span(lo, lo) =~= Seq::<int>::empty());
    } else {
        let t = ls.drop_last();
        assert forall|j: int| 0 <= j < t.len() implies (#[trigger] t[j]).new_no == Some(
            (lo + j + 1) as u32,
        ) by {
            assert(t[j] == ls[j]);
        }
        lemma_new_numbered(t, lo);
        assert(ls.last() == ls[ls.len() - 1]);
        assert(span(lo, lo + ls.len()) =~= span(lo, lo + t.len()).push(lo + ls.len()));
    }
}

/// Lines with no number on one side or the other.
proof fn lemma_unnumbered(ls: Seq<DiffLineView>)
    ensures
        (forall|j: int| 0 <= j < ls.len() ==> (#[trigger] ls[j]).old_no is None) ==> old_numbers(ls)
            == Seq::<int>::empty(),
        (forall|j: int| 0 <= j < ls.len() ==> (#[trigger] ls[j]).new_no is None) ==> new_numbers(ls)
            == Seq::<int>::empty(),
    decreases ls.len(),
{
    if ls.len() > 0 {
        let t = ls.drop_last();
        assert forall|j: int| 0 <= j < t.len() implies #[trigger] t[j] == ls[j] by {}
        lemma_unnumbered(t);
        assert(ls.last() == ls[ls.len() - 1]);
    }
}

/// Changes end no earlier on either side than the changes before them.
proof fn lemma_script_monotone(hs: Seq<RawHunk>, a: Seq<Seq<char>>, b: Seq<Seq<char>>, j: int, k: int)
    requires
        is_edit_script(hs, a, b),
        0 <= j <= k < hs.len(),
    ensures
        hs[j].before_end <= hs[k].before_end,
        hs[j].after_end <= hs[k].after_end,
    decreases k - j,
{
    if j < k {
        lemma_script_monotone(hs, a, b, j + 1, k);
        assert(gap_matches(hs, a, b, j + 1));
        assert(change_ok(hs[j + 1]));
    }
}

/// Where the new side of a hunk body from change `i` on ends.
pub open spec fn body_new_end(g: Seq<RawHunk>, i: int, op: int, np: int, oe: int) -> int {
    if i >= g.len() {
        np + (oe - op)
    } else {
        g.last().after_end + (oe - g.last().before_end)
    }
}

/// The lines of a hunk body are numbered without a gap on each side.
proof fn lemma_body_numbers(
    hs: Seq<RawHunk>,
    a: Seq<Seq<char>>,
    b: Seq<Seq<char>>,
    s: int,
    e: int,
    i: int,
    op: int,
    np: int,
    oe: int,
)
    requires
        is_edit_script(hs, a, b),
        a.len() < i32::MAX,
        b.len() < i32::MAX,
        0 <= s < e <= hs.len(),
        0 <= i <= e - s,
        gap_old_start(hs, s + i) <= op <= gap_old_end(hs, a.len() as int, s + i),
        op - gap_old_start(hs, s + i) == np - gap_new_start(hs, s + i),
        oe <= gap_old_end(hs, a.len() as int, e),
        i < e - s ==> hs[e - 1].before_end <= oe,
        i == e - s ==> op <= oe,
    ensures
        old_numbers(hunk_body(a, b, hs.subrange(s, e), i, op, np, oe)) == span(op, oe),
        new_numbers(hunk_body(a, b, hs.subrange(s, e), i, op, np, oe)) == span(
            np,
            body_new_end(hs.subrange(s, e), i, op, np, oe),
        ),
    decreases e - s - i,
{
    let g = hs.subrange(s, e);
    let k = s + i;
    assert(gap_matches(hs, a, b, k));
    if k > 0 {
        lemma_script_bounds(hs, a, b, k - 1);
    }
    if k < hs.len() {
        lemma_script_bounds(hs, a, b, k);
    }
    assert(gap_matches(hs, a, b, e));
    lemma_script_bounds(hs, a, b, e - 1);
    if i == e - s {
        let c = context_lines(a, op, np, oe);
        lemma_old_numbered(c, op);
        lemma_new_numbered(c, np);
    } else {
        let h = hs[k];
        assert(g[i] == h);
        assert(g.last() == hs[e - 1]);
        if k + 1 < e {
            lemma_script_bounds(hs, a, b, k + 1);
            assert(gap_matches(hs, a, b, k + 1));
        }
        lemma_script_monotone(hs, a, b, k, e - 1);
        lemma_body_numbers(hs, a, b, s, e, i + 1, h.before_end as int, h.after_end as int, oe);
        let c = context_lines(a, op, np, h.before_start as int);
        let d = del_lines(a, h);
        let ad = add_lines(b, h);
        let rest = hunk_body(a, b, g, i + 1, h.before_end as int, h.after_end as int, oe);
        lemma_old_numbered(c, op);
        lemma_new_numbered(c, np);
        lemma_old_numbered(d, h.before_start as int);
        lemma_new_numbered(ad, h.after_start as int);
        lemma_unnumbered(d);
        lemma_unnumbered(ad);
        lemma_numbers_concat(c, d);
        lemma_numbers_concat(c + d, ad);
        lemma_numbers_concat(c + d + ad, rest);
        assert(span(op, op) =~= Seq::<int>::empty());
        assert(old_numbers(c) + old_numbers(d) + old_numbers(ad) =~= span(op, h.before_start as int)
            + span(h.before_start as int, h.before_end as int));
        lemma_span_concat(op, h.before_start as int, h.before_end as int);
        lemma_span_concat(op, h.before_end as int, oe);
        assert(np + (h.before_start - op) == h.after_start);
        assert(new_numbers(c) + new_numbers(d) + new_numbers(ad) =~= span(np, h.after_start as int)
            + span(h.after_start as int, h.after_end as int));
        lemma_span_concat(np, h.after_start as int, h.after_end as int);
        lemma_span_concat(np, h.after_end as int, body_new_end(g, i, op, np, oe));
    }
}

/// The hunk made of changes `hs[s..e]` numbers its old-side lines `os + 1` through `oe`
/// and its new-side lines `ns + 1` through `ne`, the ranges its header names.
proof fn lemma_hunk_span(a: Seq<Seq<char>>, b: Seq<Seq<char>>, hs: Seq<RawHunk>, s: int, e: int)
    requires
        is_edit_script(hs, a, b),
        a.len() < i32::MAX,
        b.len() < i32::MAX,
        0 <= s < e <= hs.len(),
        starts_hunk(hs, s),
        e == hs.len() || starts_hunk(hs, e),
    ensures
        hunk_old_start(hs.subrange(s, e)) <= hunk_old_end(a, hs.subrange(s, e)),
        hunk_new_start(hs.subrange(s, e)) <= hunk_new_end(b, hs.subrange(s, e)),
        old_numbers(hunk_of(a, b, hs.subrange(s, e)).lines) == span(
            hunk_old_start(hs.subrange(s, e)),
            hunk_old_end(a, hs.subrange(s, e)),
        ),
        new_numbers(hunk_of(a, b, hs.subrange(s, e)).lines) == span(
            hunk_new_start(hs.subrange(s, e)),
            hunk_new_end(b, hs.subrange(s, e)),
        ),
        hunk_old_start(hs.subrange(s, e)) == lead_start(hs[s].before_start),
        hunk_new_start(hs.subrange(s, e)) == lead_start(hs[s].after_start),
        hunk_old_end(a, hs.subrange(s, e)) == trail_end(hs[e - 1].before_end, a.len() as int),
        hunk_new_end(b, hs.subrange(s, e)) == trail_end(hs[e - 1].after_end, b.len() as int),
{
    let g = hs.subrange(s, e);
    assert(gap_matches(hs, a, b, s));
    assert(gap_matches(hs, a, b, e));
    lemma_script_bounds(hs, a, b, s);
    lemma_script_bounds(hs, a, b, e - 1);
    if s > 0 {
        lemma_script_bounds(hs, a, b, s - 1);
    }
    if e < hs.len() {
        lemma_script_bounds(hs, a, b, e);
    }
    assert(g[0] == hs[s]);
    assert(g.last() == hs[e - 1]);
    let os = hunk_old_start(g);
    let oe = hunk_old_end(a, g);
    let ns = hunk_new_start(g);
    let ne = hunk_new_end(b, g);
    lemma_body_numbers(hs, a, b, s, e, 0, os, ns, oe);
    assert(body_new_end(g, 0, os, ns, oe) == ne);
    lemma_script_monotone(hs, a, b, s, e - 1);
    assert(change_ok(hs[s]));
}

/// A hunk's header says exactly which lines it shows: its old-side lines are numbered
/// `a + 1` through `a + b` and its new-side lines `c + 1` through `c + d`, without a gap,
/// for the `@@ -a,b +c,d @@` (as git spells it) at its head.
pub proof fn law_hunk_headers_count_their_lines(
    a: Seq<Seq<char>>,
    b: Seq<Seq<char>>,
    hs: Seq<RawHunk>,
    h: int,
)
    requires
        is_edit_script(hs, a, b),
        a.len() < i32::MAX,
        b.len() < i32::MAX,
        0 <= h < hunks_of(a, b, hs).len(),
    ensures
        exists|os: int, oe: int, ns: int, ne: int|
            #![trigger span(os, oe), span(ns, ne)]
            {
                &&& os <= oe && ns <= ne
                &&& hunks_of(a, b, hs)[h].header == header_text(os, oe - os, ns, ne - ns)
                &&& old_numbers(hunks_of(a, b, hs)[h].lines) == span(os, oe)
                &&& new_numbers(hunks_of(a, b, hs)[h].lines) == span(ns, ne)
            },
{
    if hs.len() > 0 {
        assert(starts_hunk(hs, 0));
    }
    let (s, e) = lemma_group_bounds(hs, 0, 0, h);
    let g = hs.subrange(s, e);
    assert(hunks_of(a, b, hs)[h] == hunk_of(a, b, g));
    lemma_hunk_span(a, b, hs, s, e);
    let os = hunk_old_start(g);
    let oe = hunk_old_end(a, g);
    let ns = hunk_new_start(g);
    let ne = hunk_new_end(b, g);
    assert(hunks_of(a, b, hs)[h].header == header_text(os, oe - os, ns, ne - ns));
    assert(old_numbers(hunks_of(a, b, hs)[h].lines) == span(os, oe));
    assert(new_numbers(hunks_of(a, b, hs)[h].lines) == span(ns, ne));
}

/// Two hunks in a row: the `m`-th is `hs[r.0..r.1]` and the next `hs[r.1..r.2]`.
proof fn lemma_group_pair(hs: Seq<RawHunk>, s: int, i: int, m: int) -> (r: (int, int, int))
    requires
        0 <= s <= i <= hs.len(),
        s < hs.len() ==> starts_hunk(hs, s),
        0 <= m,
        m + 1 < groups_from(hs, s, i).len(),
    ensures
        0 <= r.0 < r.1 < r.2 <= hs.len(),
        starts_hunk(hs, r.0),
        starts_hunk(hs, r.1),
        r.2 == hs.len() || starts_hunk(hs, r.2),
        groups_from(hs, s, i)[m] == hs.subrange(r.0, r.1),
        groups_from(hs, s, i)[m + 1] == hs.subrange(r.1, r.2),
    decreases hs.len() - i,
{
    if i >= hs.len() {
        assert(false);
        (0, 0, 0)
    } else if i > s && starts_hunk(hs, i) {
        if m == 0 {
            let (x, y) = lemma_group_bounds(hs, i, i + 1, 0);
            assert(groups_from(hs, s, i)[1] == groups_from(hs, i, i + 1)[0]);
            (s, i, y)
        } else {
            assert(groups_from(hs, s, i)[m] == groups_from(hs, i, i + 1)[m - 1]);
            assert(groups_from(hs, s, i)[m + 1] == groups_from(hs, i, i + 1)[m]);
            lemma_group_pair(hs, i, i + 1, m - 1)
        }
    } else {
        lemma_group_pair(hs, s, i + 1, m)
    }
}

/// Hunks come in file order and never touch: every line one hunk numbers on a side comes
/// at least two lines before any line the next hunk numbers on that side, so no line is
/// shown twice and hunks closer than that are one.
pub proof fn law_hunks_are_in_order_and_apart(
    a: Seq<Seq<char>>,
    b: Seq<Seq<char>>,
    hs: Seq<RawHunk>,
    h: int,
)
    requires
        is_edit_script(hs, a, b),
        a.len() < i32::MAX,
        b.len() < i32::MAX,
        0 <= h,
        h + 1 < hunks_of(a, b, hs).len(),
    ensures
        forall|x: int, y: int|
            #[trigger] old_numbers(hunks_of(a, b, hs)[h].lines).contains(x) && #[trigger] old_numbers(
                hunks_of(a, b, hs)[h + 1].lines,
            ).contains(y) ==> x + 1 < y,
        forall|x: int, y: int|
            #[trigger] new_numbers(hunks_of(a, b, hs)[h].lines).contains(x) && #[trigger] new_numbers(
                hunks_of(a, b, hs)[h + 1].lines,
            ).contains(y) ==> x + 1 < y,
{
    assert(starts_hunk(hs, 0));
    let (p, q, r) = lemma_group_pair(hs, 0, 0, h);
    let g1 = hs.subrange(p, q);
    let g2 = hs.subrange(q, r);
    assert(hunks_of(a, b, hs)[h] == hunk_of(a, b, g1));
    assert(hunks_of(a, b, hs)[h + 1] == hunk_of(a, b, g2));
    lemma_hunk_span(a, b, hs, p, q);
    lemma_hunk_span(a, b, hs, q, r);
    assert(gap_matches(hs, a, b, q));
    lemma_script_bounds(hs, a, b, q - 1);
    lemma_script_bounds(hs, a, b, q);
    let oe1 = hunk_old_end(a, g1);
    let os2 = hunk_old_start(g2);
    let ne1 = hunk_new_end(b, g1);
    let ns2 = hunk_new_start(g2);
    assert(oe1 < os2);
    assert(ne1 < ns2);
    assert forall|x: int, y: int|
        #[trigger] old_numbers(hunks_of(a, b, hs)[h].lines).contains(x) && #[trigger] old_numbers(
            hunks_of(a, b, hs)[h + 1].lines,
        ).contains(y) implies x + 1 < y by {
        let i = choose|i: int| 0 <= i < span(hunk_old_start(g1), oe1).len() && span(hunk_old_start(g1), oe1)[i] == x;
        let j = choose|j: int| 0 <= j < span(os2, hunk_old_end(a, g2)).len() && span(os2, hunk_old_end(a, g2))[j] == y;
    }
    assert forall|x: int, y: int|
        #[trigger] new_numbers(hunks_of(a, b, hs)[h].lines).contains(x) && #[trigger] new_numbers(
            hunks_of(a, b, hs)[h + 1].lines,
        ).contains(y) implies x + 1 < y by {
        let i = choose|i: int| 0 <= i < span(hunk_new_start(g1), ne1).len() && span(hunk_new_start(g1), ne1)[i] == x;
        let j = choose|j: int| 0 <= j < span(ns2, hunk_new_end(b, g2)).len() && span(ns2, hunk_new_end(b, g2))[j] == y;
    }
}

/// Between each change of `g` and the next, the unchanged run is as long on both sides.
pub open spec fn inner_gaps_match(g: Seq<RawHunk>) -> bool {
    forall|j: int, k: int|
        0 <= j && k == j + 1 && k < g.len() ==> (#[trigger] g[k]).before_start - (
        #[trigger] g[j]).before_end == g[k].after_start - g[j].after_end
}

/// A line carries the numbers its kind calls for: a context line both, a deleted line
/// the old side's only, an added line the new side's only.
pub open spec fn numbered_by_kind(l: DiffLineView) -> bool {
    match l.kind {
        LineKind::Context => l.old_no is Some && l.new_no is Some,
        LineKind::Del => l.old_no is Some && l.new_no is None,
        LineKind::Add => l.old_no is None && l.new_no is Some,
    }
}

proof fn lemma_body_kinds(
    a: Seq<Seq<char>>,
    b: Seq<Seq<char>>,
    g: Seq<RawHunk>,
    i: int,
    op: int,
    np: int,
    oe: int,
)
    ensures
        forall|j: int|
            0 <= j < hunk_body(a, b, g, i, op, np, oe).len() ==> numbered_by_kind(
                #[trigger] hunk_body(a, b, g, i, op, np, oe)[j],
            ),
    decreases g.len() - i,
{
    if !(i >= g.len() || i < 0) {
        let h = g[i];
        lemma_body_kinds(a, b, g, i + 1, h.before_end as int, h.after_end as int, oe);
        let c = context_lines(a, op, np, h.before_start as int);
        let d = del_lines(a, h);
        let ad = add_lines(b, h);
        let rest = hunk_body(a, b, g, i + 1, h.before_end as int, h.after_end as int, oe);
        let all = c + d + ad + rest;
        assert forall|j: int| 0 <= j < all.len() implies numbered_by_kind(#[trigger] all[j]) by {
            if j < c.len() {
                assert(all[j] == c[j]);
            } else if j < c.len() + d.len() {
                assert(all[j] == d[j - c.len()]);
            } else if j < c.len() + d.len() + ad.len() {
                assert(all[j] == ad[j - c.len() - d.len()]);
            } else {
                assert(all[j] == rest[j - c.len() - d.len() - ad.len()]);
            }
        }
    }
}

/// The body of a hunk over an ordered group with matching inner gaps is numbered without
/// a gap on each side, from where it starts.
proof fn lemma_group_body_numbers(
    a: Seq<Seq<char>>,
    b: Seq<Seq<char>>,
    g: Seq<RawHunk>,
    i: int,
    op: int,
    np: int,
    oe: int,
)
    requires
        ordered_group(g, a.len() as int, b.len() as int),
        inner_gaps_match(g),
        a.len() < i32::MAX,
        b.len() < i32::MAX,
        0 <= i <= g.len(),
        0 <= op,
        0 <= np <= b.len(),
        oe <= a.len(),
        i < g.len() ==> op <= g[i].before_start && g[i].before_start - op == g[i].after_start - np
            && g.last().before_end <= oe,
        i == g.len() ==> op <= oe,
    ensures
        old_numbers(hunk_body(a, b, g, i, op, np, oe)) == span(op, oe),
        new_numbers(hunk_body(a, b, g, i, op, np, oe)) == span(np, body_new_end(g, i, op, np, oe)),
    decreases g.len() - i,
{
    if i == g.len() {
        let c = context_lines(a, op, np, oe);
        lemma_old_numbered(c, op);
        lemma_new_numbered(c, np);
    } else {
        let h = g[i];
        assert(change_ok(g[i]));
        assert(g.last() == g[g.len() - 1]);
        if i + 1 < g.len() {
            assert(change_ok(g[i + 1]));
            assert(g[i].before_end <= g[i + 1].before_start);
            assert(g[i + 1].before_start - g[i].before_end == g[i + 1].after_start - g[i].after_end);
            if i + 1 < g.len() - 1 {
                assert(g[i + 1].before_end <= g[g.len() - 1].before_start);
            }
        }
        if i < g.len() - 1 {
            assert(g[i].before_end <= g[g.len() - 1].before_start);
            assert(g[i].after_end <= g[g.len() - 1].after_start);
            assert(change_ok(g[g.len() - 1]));
        }
        lemma_group_body_numbers(a, b, g, i + 1, h.before_end as int, h.after_end as int, oe);
        let c = context_lines(a, op, np, h.before_start as int);
        let d = del_lines(a, h);
        let ad = add_lines(b, h);
        let rest = hunk_body(a, b, g, i + 1, h.before_end as int, h.after_end as int, oe);
        lemma_old_numbered(c, op);
        lemma_new_numbered(c, np);
        lemma_old_numbered(d, h.before_start as int);
        lemma_new_numbered(ad, h.after_start as int);
        lemma_unnumbered(d);
        lemma_unnumbered(ad);
        lemma_numbers_concat(c, d);
        lemma_numbers_concat(c + d, ad);
        lemma_numbers_concat(c + d + ad, rest);
        assert(old_numbers(c) + old_numbers(d) + old_numbers(ad) =~= span(op, h.before_start as int)
            + span(h.before_start as int, h.before_end as int));
        lemma_span_concat(op, h.before_start as int, h.before_end as int);
        lemma_span_concat(op, h.before_end as int, oe);
        assert(np + (h.before_start - op) == h.after_start);
        assert(new_numbers(c) + new_numbers(d) + new_numbers(ad) =~= span(np, h.after_start as int)
            + span(h.after_start as int, h.after_end as int));
        lemma_span_concat(np, h.after_start as int, h.after_end as int);
        lemma_span_concat(np, h.after_end as int, body_new_end(g, i, op, np, oe));
    }
}

/// What a hunk says of its lines, for any ordered run of changes `g` (not only the runs
/// `hunks` makes): each line carries the numbers its kind calls for; its old-side lines
/// are numbered consecutively from the clamped old start through the clamped old end,
/// which the header names; there are at most `CONTEXT_LINES` context lines before the
/// first change and after the last. The new side is numbered from the clamped new start,
/// stepping with the old side through context: when the unchanged runs between the
/// changes, and the context before the first, are as long on both sides, its numbers run
/// without a gap, and when the context after the last change is also as long on both
/// sides, the header's new range names exactly them. (A run cut out of the middle of an
/// edit script need not meet those conditions, and then the header's new count and the
/// new-side lines disagree; the runs `hunks` makes always meet them.)
pub proof fn law_any_group_numbers_its_lines(a: Seq<Seq<char>>, b: Seq<Seq<char>>, g: Seq<RawHunk>)
    requires
        ordered_group(g, a.len() as int, b.len() as int),
        a.len() < i32::MAX,
        b.len() < i32::MAX,
    ensures
        forall|j: int|
            0 <= j < hunk_of(a, b, g).lines.len() ==> numbered_by_kind(
                #[trigger] hunk_of(a, b, g).lines[j],
            ),
        hunk_of(a, b, g).header == header_text(
            hunk_old_start(g),
            hunk_old_end(a, g) - hunk_old_start(g),
            hunk_new_start(g),
            hunk_new_end(b, g) - hunk_new_start(g),
        ),
        g[0].before_start - hunk_old_start(g) <= CONTEXT_LINES,
        hunk_old_end(a, g) - g.last().before_end <= CONTEXT_LINES,
        old_numbers(hunk_of(a, b, g).lines) == span(hunk_old_start(g), hunk_old_end(a, g)),
        inner_gaps_match(g) && g[0].before_start - hunk_old_start(g) == g[0].after_start
            - hunk_new_start(g) ==> new_numbers(hunk_of(a, b, g).lines) == span(
            hunk_new_start(g),
            g.last().after_end + (hunk_old_end(a, g) - g.last().before_end),
        ),
        inner_gaps_match(g) && g[0].before_start - hunk_old_start(g) == g[0].after_start
            - hunk_new_start(g) && hunk_old_end(a, g) - g.last().before_end == hunk_new_end(b, g)
            - g.last().after_end ==> new_numbers(hunk_of(a, b, g).lines) == span(
            hunk_new_start(g),
            hunk_new_end(b, g),
        ),
{
    let os = hunk_old_start(g);
    let oe = hunk_old_end(a, g);
    let ns = hunk_new_start(g);
    lemma_body_kinds(a, b, g, 0, os, ns, oe);
    assert(g.last() == g[g.len() - 1]);
    assert(change_ok(g[0]));
    assert(change_ok(g[g.len() - 1]));
    if g.len() > 1 {
        assert(g[0].before_end <= g[g.len() - 1].before_start);
    }
    lemma_group_old_numbers(a, b, g, 0, os, ns, oe);
    if inner_gaps_match(g) && g[0].before_start - os == g[0].after_start - ns {
        lemma_group_body_numbers(a, b, g, 0, os, ns, oe);
    }
}

/// The old side of a hunk body over an ordered group is numbered without a gap.
proof fn lemma_group_old_numbers(
    a: Seq<Seq<char>>,
    b: Seq<Seq<char>>,
    g: Seq<RawHunk>,
    i: int,
    op: int,
    np: int,
    oe: int,
)
    requires
        ordered_group(g, a.len() as int, b.len() as int),
        a.len() < i32::MAX,
        b.len() < i32::MAX,
        0 <= i <= g.len(),
        0 <= op,
        oe <= a.len(),
        i < g.len() ==> op <= g[i].before_start && g.last().before_end <= oe,
        i == g.len() ==> op <= oe,
    ensures
        old_numbers(hunk_body(a, b, g, i, op, np, oe)) == span(op, oe),
    decreases g.len() - i,
{
    if i == g.len() {
        let c = context_lines(a, op, np, oe);
        lemma_old_numbered(c, op);
    } else {
        let h = g[i];
        assert(change_ok(g[i]));
        assert(g.last() == g[g.len() - 1]);
        if i + 1 < g.len() {
            assert(g[i].before_end <= g[i + 1].before_start);
        }
        if i < g.len() - 1 {
            assert(g[i].before_end <= g[g.len() - 1].before_start);
            assert(change_ok(g[g.len() - 1]));
        }
        lemma_group_old_numbers(a, b, g, i + 1, h.before_end as int, h.after_end as int, oe);
        let c = context_lines(a, op, np, h.before_start as int);
        let d = del_lines(a, h);
        let ad = add_lines(b, h);
        let rest = hunk_body(a, b, g, i + 1, h.before_end as int, h.after_end as int, oe);
        lemma_old_numbered(c, op);
        lemma_old_numbered(d, h.before_start as int);
        lemma_unnumbered(ad);
        lemma_numbers_concat(c, d);
        lemma_numbers_concat(c + d, ad);
        lemma_numbers_concat(c + d + ad, rest);
        assert(old_numbers(c) + old_numbers(d) + old_numbers(ad) =~= span(op, h.before_start as int)
            + span(h.before_start as int, h.before_end as int));
        lemma_span_concat(op, h.before_start as int, h.before_end as int);
        lemma_span_concat(op, h.before_end as int, oe);
    }
}

/// Whether two sides can be handed to `file_diff` and `count_changes`, as `diffable`
/// says: a side that is not text never stands in the way, and texts stand in the way only
/// with `i32::MAX` lines or more, which the line diff cannot number.
pub fn diffable_sides(old: &[u8], new: &[u8]) -> (r: bool)
    ensures
        r == diffable(old@, new@),
{
    match (utf8_str(old), utf8_str(new)) {
        (Some(o), Some(n)) => {
            let lo = lines_with_terminators(&chars_of(o));
            let ln = lines_with_terminators(&chars_of(n));
            lo.len() < 2147483647 && ln.len() < 2147483647
        },
        _ => true,
    }
}

/// The groups, one after another.
pub open spec fn joined_groups(gs: Seq<Seq<RawHunk>>) -> Seq<RawHunk>
    decreases gs.len(),
{
    if gs.len() == 0 {
        seq![]
    } else {
        gs[0] + joined_groups(gs.drop_first())
    }
}

/// Within `g`, no unchanged run between two changes is longer than both context runs.
pub open spec fn close_together(g: Seq<RawHunk>) -> bool {
    forall|j: int, k: int|
        0 <= j && k == j + 1 && k < g.len() ==> (#[trigger] g[k]).before_start - (
        #[trigger] g[j]).before_end <= 2 * CONTEXT_LINES
}

proof fn lemma_groups_from_partition(hs: Seq<RawHunk>, s: int, i: int)
    requires
        0 <= s <= i <= hs.len(),
        s == hs.len() ==> s == i,
        forall|t: int| s < t < i ==> !starts_hunk(hs, t),
    ensures
        joined_groups(groups_from(hs, s, i)) == hs.skip(s),
        forall|m: int|
            0 <= m < groups_from(hs, s, i).len() ==> (#[trigger] groups_from(hs, s, i)[m]).len()
                > 0 && close_together(groups_from(hs, s, i)[m]),
    decreases hs.len() - i,
{
    let gs = groups_from(hs, s, i);
    if i >= hs.len() {
        if s < hs.len() {
            let g = hs.subrange(s, hs.len() as int);
            assert(gs == seq![g]);
            assert(seq![g].drop_first() =~= Seq::<Seq<RawHunk>>::empty());
            assert(joined_groups(Seq::<Seq<RawHunk>>::empty()) =~= Seq::<RawHunk>::empty());
            assert(joined_groups(gs) =~= hs.skip(s));
            assert forall|j: int, k: int| 0 <= j && k == j + 1 && k < g.len() implies (
            #[trigger] g[k]).before_start - (#[trigger] g[j]).before_end <= 2 * CONTEXT_LINES by {
                assert(!starts_hunk(hs, s + k));
                assert(g[k] == hs[s + k] && g[j] == hs[s + k - 1]);
            }
            assert(gs[0] == g);
        } else {
            assert(gs =~= Seq::<Seq<RawHunk>>::empty());
            assert(hs.skip(s) =~= Seq::<RawHunk>::empty());
        }
    } else if i > s && starts_hunk(hs, i) {
        let g = hs.subrange(s, i);
        lemma_groups_from_partition(hs, i, i + 1);
        let rest = groups_from(hs, i, i + 1);
        assert(gs == seq![g] + rest);
        assert((seq![g] + rest)[0] == g);
        assert((seq![g] + rest).drop_first() =~= rest);
        assert(joined_groups(gs) == g + joined_groups(rest));
        assert(g + hs.skip(i) =~= hs.skip(s));
        assert forall|j: int, k: int| 0 <= j && k == j + 1 && k < g.len() implies (
        #[trigger] g[k]).before_start - (#[trigger] g[j]).before_end <= 2 * CONTEXT_LINES by {
            assert(!starts_hunk(hs, s + k));
            assert(g[k] == hs[s + k] && g[j] == hs[s + k - 1]);
        }
        assert forall|m: int| 0 <= m < gs.len() implies (#[trigger] gs[m]).len() > 0
            && close_together(gs[m]) by {
            if m > 0 {
                assert(gs[m] == rest[m - 1]);
            }
        }
    } else {
        assert(gs == groups_from(hs, s, i + 1));
        lemma_groups_from_partition(hs, s, i + 1);
    }
}

/// The hunks split the changes without losing, repeating or reordering any: their runs
/// of changes, one after another, are all the changes in order. Each hunk has at least
/// one change, and within a hunk no unchanged run between two changes is longer than both
/// context runs together (a longer one starts a new hunk, as the law on hunks being apart
/// shows from the other side).
pub proof fn law_hunks_keep_every_change(hs: Seq<RawHunk>)
    ensures
        joined_groups(groups(hs)) == hs,
        forall|m: int|
            0 <= m < groups(hs).len() ==> (#[trigger] groups(hs)[m]).len() > 0 && close_together(
                groups(hs)[m],
            ),
{
    lemma_groups_from_partition(hs, 0, 0);
    assert(hs.skip(0) =~= hs);
}

} // verus!
