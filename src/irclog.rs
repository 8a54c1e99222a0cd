//! Parsing IRC log lines, and finding and rendering the last standup in a log.

use crate::text::{
    is_substring, lemma_split_on_nonempty, lines_of, push_char, split_char, split_lines, split_on,
    str_contains, newlines, lemma_newlines_concat, lemma_newlines_none, lemma_split_on_lacks,
    lemma_lines_lack_newline,
};
use crate::StandupError;
use vstd::prelude::*;
use vstd::string::*;

verus! {

/// Field `k` of a tab-separated log line; empty when the line has fewer fields.
pub open spec fn field(l: Seq<char>, k: int) -> Seq<char> {
    let p = split_on(l, '\t');
    if 0 <= k < p.len() {
        p[k]
    } else {
        Seq::<char>::empty()
    }
}

/// The content of a line opens a section header.
pub open spec fn is_header(content: Seq<char>) -> bool {
    content.len() > 0 && content[0] == '#'
}

/// How one line of a standup reads in the report, without its newline.
pub open spec fn rendered(username: Seq<char>, content: Seq<char>, in_discussion: bool) -> Seq<char> {
    if in_discussion {
        seq![' ', ' ', ' ', ' '] + username + seq!['\t'] + content
    } else if is_header(content) {
        seq!['\n'] + content
    } else {
        content
    }
}

/// One line of an IRC log: time stamp, speaker and message, and whether it
/// falls in the discussion part of a standup.
#[derive(Debug)]
pub struct IrcLogLine {
    pub datetime: String,
    pub username: String,
    pub content: String,
    pub in_discussion: bool,
}

impl IrcLogLine {
    /// The fields of `self` are those of the raw line `l`.
    pub open spec fn parsed_from(&self, l: Seq<char>) -> bool {
        &&& self.datetime@ == field(l, 0)
        &&& self.username@ == field(l, 1)
        &&& self.content@ == field(l, 2)
        &&& !self.in_discussion
    }

    /// Splits a line at its tabs into time stamp, speaker and message. Missing
    /// fields are empty; fields after the third are dropped.
    pub fn parse_line(s: &str) -> (r: IrcLogLine)
        ensures
            r.parsed_from(s@),
    {
        let pieces = split_char(s, '\t');
        proof {
            lemma_split_on_nonempty(s@, '\t');
        }
        let ghost p = split_on(s@, '\t');
        assert(pieces.deep_view()[0] == pieces[0]@);
        let datetime = pieces[0].clone();
        let username = if pieces.len() > 1 {
            assert(pieces.deep_view()[1] == pieces[1]@);
            pieces[1].clone()
        } else {
            String::new()
        };
        let content = if pieces.len() > 2 {
            assert(pieces.deep_view()[2] == pieces[2]@);
            pieces[2].clone()
        } else {
            String::new()
        };
        IrcLogLine { datetime, username, content, in_discussion: false }
    }

    /// The line as it reads in a standup report, without its newline.
    pub fn render(&self) -> (r: String)
        ensures
            r@ == rendered(self.username@, self.content@, self.in_discussion),
    {
        let content = self.content.as_str();
        if self.in_discussion {
            let mut r = String::new();
            push_char(&mut r, ' ');
            push_char(&mut r, ' ');
            push_char(&mut r, ' ');
            push_char(&mut r, ' ');
            r.append(self.username.as_str());
            push_char(&mut r, '\t');
            r.append(content);
            assert(r@ =~= rendered(self.username@, self.content@, self.in_discussion));
            r
        } else if content.unicode_len() > 0 && content.get_char(0) == '#' {
            let mut r = String::new();
            push_char(&mut r, '\n');
            r.append(content);
            assert(r@ =~= rendered(self.username@, self.content@, self.in_discussion));
            r
        } else {
            String::from_str(content)
        }
    }
}

impl std::str::FromStr for IrcLogLine {
    type Err = StandupError;

    /// Parsing a line never fails: see `IrcLogLine::parse_line`.
    fn from_str(s: &str) -> (r: Result<IrcLogLine, StandupError>)
        ensures
            r matches Ok(l) && l.parsed_from(s@),
    {
        Ok(IrcLogLine::parse_line(s))
    }
}

/// Index of the last line that contains `m`, or -1 when none does.
pub open spec fn last_marker(lines: Seq<Seq<char>>, m: Seq<char>) -> int
    decreases lines.len(),
{
    if lines.len() == 0 {
        -1
    } else if is_substring(m, lines.last()) {
        lines.len() - 1
    } else {
        last_marker(lines.drop_last(), m)
    }
}

/// Position of the last line of `haystack` that contains `needle`.
pub fn rpos_str(haystack: &[&str], needle: &str) -> (r: Result<usize, StandupError>)
    ensures
        match r {
            Ok(i) => i == last_marker(haystack.deep_view(), needle@),
            Err(e) => last_marker(haystack.deep_view(), needle@) == -1
                && e is StringNotFound && e->StringNotFound_0@ == needle@,
        },
{
    let ghost lines = haystack.deep_view();
    let mut i: usize = haystack.len();
    assert(lines.take(i as int) =~= lines);
    while i > 0
        invariant
            i <= haystack.len(),
            lines == haystack.deep_view(),
            last_marker(lines, needle@) == last_marker(lines.take(i as int), needle@),
        decreases i,
    {
        let ghost t = lines.take(i as int);
        assert(t.drop_last() =~= lines.take(i - 1));
        assert(t.last() == haystack[i - 1]@);
        if str_contains(haystack[i - 1], needle) {
            return Ok(i - 1);
        }
        i = i - 1;
    }
    Err(StandupError::StringNotFound(String::from_str(needle)))
}

/// What `last_marker` means: the line found contains the marker and no later
/// line does; when none is found, no line contains it.
pub proof fn lemma_last_marker_is_last(lines: Seq<Seq<char>>, m: Seq<char>)
    ensures
        -1 <= last_marker(lines, m) < lines.len(),
        last_marker(lines, m) >= 0 ==> is_substring(m, lines[last_marker(lines, m)]),
        forall|j: int|
            last_marker(lines, m) < j < lines.len() ==> !is_substring(m, #[trigger] lines[j]),
    decreases lines.len(),
{
    if lines.len() > 0 {
        lemma_last_marker_is_last(lines.drop_last(), m);
        assert forall|j: int| last_marker(lines, m) < j < lines.len() implies !is_substring(
            m,
            #[trigger] lines[j],
        ) by {
            if j < lines.len() - 1 {
                assert(lines[j] == lines.drop_last()[j]);
            }
        }
        if last_marker(lines, m) >= 0 && !is_substring(m, lines.last()) {
            assert(lines[last_marker(lines, m)] == lines.drop_last()[last_marker(lines, m)]);
        }
    }
}

/// Line indices of the start marker, the discussion marker and the end
/// marker of a standup.
#[derive(Debug)]
pub struct StandupBounds {
    pub start: usize,
    pub discussion: usize,
    pub end: usize,
}

impl StandupBounds {
    /// The bounds delimit a block of `n_lines` lines in the required order.
    pub open spec fn valid(&self, n_lines: int) -> bool {
        self.start < self.discussion < self.end < n_lines
    }
}

/// `r` is the outcome of locating the markers `start`, `discussion` and `end`
/// in `lines`: each marker is looked up on its own as its last occurrence;
/// the first marker that is missing, in that order, is reported; then the
/// three positions must be strictly increasing.
pub open spec fn located(
    lines: Seq<Seq<char>>,
    start: Seq<char>,
    discussion: Seq<char>,
    end: Seq<char>,
    r: Result<StandupBounds, StandupError>,
) -> bool {
    let ls = last_marker(lines, start);
    let ld = last_marker(lines, discussion);
    let le = last_marker(lines, end);
    match r {
        Ok(b) => ls >= 0 && ld >= 0 && le >= 0 && ls < ld < le && b.start == ls
            && b.discussion == ld && b.end == le,
        Err(StandupError::StringNotFound(m)) => if ls < 0 {
            m@ == start
        } else if ld < 0 {
            m@ == discussion
        } else {
            le < 0 && m@ == end
        },
        Err(StandupError::IrcStandupPositionInvalid(a, b, c)) => ls >= 0 && ld >= 0 && le >= 0
            && !(ls < ld < le) && a == ls && b == ld && c == le,
        Err(_) => false,
    }
}

/// Finds the last standup in `lines`, delimited by the last line holding each
/// marker.
pub fn locate_standup(lines: &[&str], start: &str, discussion: &str, end: &str) -> (r: Result<
    StandupBounds,
    StandupError,
>)
    ensures
        located(lines.deep_view(), start@, discussion@, end@, r),
        r is Ok ==> r->Ok_0.valid(lines@.len() as int),
{
    proof {
        lemma_last_marker_is_last(lines.deep_view(), start@);
        lemma_last_marker_is_last(lines.deep_view(), discussion@);
        lemma_last_marker_is_last(lines.deep_view(), end@);
    }
    let lstart = match rpos_str(lines, start) {
        Ok(i) => i,
        Err(e) => return Err(e),
    };
    let ldiscussion = match rpos_str(lines, discussion) {
        Ok(i) => i,
        Err(e) => return Err(e),
    };
    let lend = match rpos_str(lines, end) {
        Ok(i) => i,
        Err(e) => return Err(e),
    };
    if !(lstart < ldiscussion && ldiscussion < lend) {
        return Err(StandupError::IrcStandupPositionInvalid(lstart, ldiscussion, lend));
    }
    Ok(StandupBounds { start: lstart, discussion: ldiscussion, end: lend })
}

/// The report line of log line `l`, inside or after the discussion marker.
pub open spec fn record(l: Seq<char>, in_discussion: bool) -> Seq<char> {
    rendered(field(l, 1), field(l, 2), in_discussion)
}

/// The report lines of the block `start..=end` of `lines`, in order; lines
/// after `discussion` are rendered as discussion.
pub open spec fn block_records(lines: Seq<Seq<char>>, start: int, discussion: int, end: int) -> Seq<
    Seq<char>,
> {
    Seq::new((end - start + 1) as nat, |k: int| record(lines[start + k], start + k > discussion))
}

/// Renders the lines `b.start..=b.end` of `lines`, one report line each.
pub fn render_standup(lines: &[&str], b: &StandupBounds) -> (r: Vec<String>)
    requires
        b.valid(lines@.len() as int),
    ensures
        r.deep_view() == block_records(
            lines.deep_view(),
            b.start as int,
            b.discussion as int,
            b.end as int,
        ),
        r.len() == b.end - b.start + 1,
{
    let ghost want = block_records(
        lines.deep_view(),
        b.start as int,
        b.discussion as int,
        b.end as int,
    );
    let mut r: Vec<String> = Vec::new();
    let mut i: usize = b.start;
    while i <= b.end
        invariant
            b.valid(lines@.len() as int),
            b.start <= i <= b.end + 1,
            want == block_records(
                lines.deep_view(),
                b.start as int,
                b.discussion as int,
                b.end as int,
            ),
            r.deep_view() == want.take(i - b.start),
        decreases b.end + 1 - i,
    {
        let mut line = IrcLogLine::parse_line(lines[i]);
        line.in_discussion = i > b.discussion;
        let out = line.render();
        let ghost before = r.deep_view();
        r.push(out);
        assert(lines.deep_view()[i as int] == lines[i as int]@);
        assert(r.deep_view() =~= before.push(out@));
        assert(want[i - b.start] == out@);
        assert(r.deep_view() =~= want.take(i + 1 - b.start));
        i = i + 1;
    }
    assert(want.take(i - b.start) =~= want);
    r
}

/// The lines of `recs`, each followed by a newline.
pub open spec fn join_lines(recs: Seq<Seq<char>>) -> Seq<char>
    decreases recs.len(),
{
    if recs.len() == 0 {
        Seq::<char>::empty()
    } else {
        join_lines(recs.drop_last()) + recs.last() + seq!['\n']
    }
}

/// All three markers occur in `lines`, and their last occurrences come in the
/// order start, discussion, end.
pub open spec fn markers_in_order(
    lines: Seq<Seq<char>>,
    start: Seq<char>,
    discussion: Seq<char>,
    end: Seq<char>,
) -> bool {
    let ls = last_marker(lines, start);
    let ld = last_marker(lines, discussion);
    let le = last_marker(lines, end);
    0 <= ls < ld < le
}

/// The report of the standup that the last occurrences of the markers delimit.
pub open spec fn last_standup_report(
    lines: Seq<Seq<char>>,
    start: Seq<char>,
    discussion: Seq<char>,
    end: Seq<char>,
) -> Seq<char> {
    join_lines(
        block_records(
            lines,
            last_marker(lines, start),
            last_marker(lines, discussion),
            last_marker(lines, end),
        ),
    )
}

/// `after` is what a sink holding `before` holds once the last standup of
/// `log` has been written to it, with outcome `r`: the report appended on
/// success, nothing on failure.
pub open spec fn report_written(
    log: Seq<char>,
    start: Seq<char>,
    discussion: Seq<char>,
    end: Seq<char>,
    before: Seq<char>,
    after: Seq<char>,
    r: Result<(), StandupError>,
) -> bool {
    let lines = lines_of(log);
    match r {
        Ok(_) => markers_in_order(lines, start, discussion, end) && after == before
            + last_standup_report(lines, start, discussion, end),
        Err(e) => !markers_in_order(lines, start, discussion, end) && after == before && located(
            lines,
            start,
            discussion,
            end,
            Err(e),
        ),
    }
}

/// Finds the last standup in the IRC log text `irc_log` and appends its
/// report to `out`, one line per log line of the block.
pub fn write_last_standup(
    irc_log: &str,
    start: &str,
    discussion: &str,
    end: &str,
    out: &mut String,
) -> (r: Result<(), StandupError>)
    ensures
        report_written(irc_log@, start@, discussion@, end@, old(out)@, final(out)@, r),
{
    let owned = split_lines(irc_log);
    let mut lines: Vec<&str> = Vec::new();
    for i in 0..owned.len()
        invariant
            lines.deep_view() == owned.deep_view().take(i as int),
    {
        let ghost before = lines.deep_view();
        lines.push(owned[i].as_str());
        assert(lines.deep_view() =~= before.push(owned[i as int]@));
        assert(owned.deep_view()[i as int] == owned[i as int]@);
        assert(lines.deep_view() =~= owned.deep_view().take(i + 1));
    }
    assert(owned.deep_view().take(owned.len() as int) =~= owned.deep_view());
    let ghost all = lines_of(irc_log@);
    let slice = lines.as_slice();
    assert(slice.deep_view() =~= all);
    let b = match locate_standup(slice, start, discussion, end) {
        Ok(b) => b,
        Err(e) => return Err(e),
    };
    let recs = render_standup(slice, &b);
    let ghost base = old(out)@;
    let ghost want = block_records(all, b.start as int, b.discussion as int, b.end as int);
    for k in 0..recs.len()
        invariant
            recs.deep_view() == want,
            out@ == base + join_lines(want.take(k as int)),
    {
        assert(recs.deep_view()[k as int] == recs[k as int]@);
        out.append(recs[k].as_str());
        push_char(out, '\n');
        let ghost t = want.take(k + 1);
        assert(t.drop_last() =~= want.take(k as int));
        assert(out@ =~= base + join_lines(t));
    }
    assert(want.take(recs.len() as int) =~= want);
    Ok(())
}

/// `text` holds `l` as a whole line starting at position `p`.
pub open spec fn line_at(text: Seq<char>, p: int, l: Seq<char>) -> bool {
    &&& 0 <= p
    &&& p + l.len() < text.len()
    &&& p == 0 || text[p - 1] == '\n'
    &&& text.subrange(p, p + l.len()) == l
    &&& text[p + l.len()] == '\n'
}

proof fn lemma_join_prefix(recs: Seq<Seq<char>>, j: int)
    requires
        0 <= j <= recs.len(),
    ensures
        join_lines(recs.take(j)).len() <= join_lines(recs).len(),
        join_lines(recs).subrange(0, join_lines(recs.take(j)).len() as int) == join_lines(
            recs.take(j),
        ),
    decreases recs.len(),
{
    if j == recs.len() {
        assert(recs.take(j) =~= recs);
    } else {
        lemma_join_prefix(recs.drop_last(), j);
        assert(recs.drop_last().take(j) =~= recs.take(j));
        let full = join_lines(recs);
        let prev = join_lines(recs.drop_last());
        assert(full == prev + recs.last() + seq!['\n']);
        assert(full.subrange(0, prev.len() as int) =~= prev);
        assert(full.subrange(0, join_lines(recs.take(j)).len() as int) =~= prev.subrange(
            0,
            join_lines(recs.take(j)).len() as int,
        ));
    }
}

proof fn lemma_join_ends_with_newline(recs: Seq<Seq<char>>)
    requires
        recs.len() > 0,
    ensures
        join_lines(recs).len() > 0,
        join_lines(recs).last() == '\n',
{
}

/// Report line `k` stands as a whole line of the joined text, after the
/// report lines before it.
proof fn lemma_join_line(recs: Seq<Seq<char>>, k: int)
    requires
        0 <= k < recs.len(),
    ensures
        line_at(join_lines(recs), join_lines(recs.take(k)).len() as int, recs[k]),
{
    let t = recs.take(k + 1);
    assert(t.drop_last() =~= recs.take(k));
    lemma_join_prefix(recs, k + 1);
    let full = join_lines(recs);
    let before = join_lines(recs.take(k));
    let upto = join_lines(t);
    assert(upto == before + recs[k] + seq!['\n']);
    let p = before.len() as int;
    assert(full.subrange(0, upto.len() as int) == upto);
    assert(full.subrange(p, p + recs[k].len()) =~= upto.subrange(p, p + recs[k].len()));
    assert(upto.subrange(p, p + recs[k].len()) =~= recs[k]);
    assert(full[p + recs[k].len()] == upto[p + recs[k].len()]);
    if p > 0 {
        assert(recs.take(k).len() > 0);
        lemma_join_ends_with_newline(recs.take(k));
        assert(full[p - 1] == upto[p - 1]);
    }
}

/// Rendering a standup yields one report line for each log line from the
/// start marker through the end marker.
pub proof fn lemma_report_line_count(
    lines: Seq<Seq<char>>,
    start: Seq<char>,
    discussion: Seq<char>,
    end: Seq<char>,
)
    requires
        markers_in_order(lines, start, discussion, end),
    ensures
        block_records(
            lines,
            last_marker(lines, start),
            last_marker(lines, discussion),
            last_marker(lines, end),
        ).len() == last_marker(lines, end) - last_marker(lines, start) + 1,
{
}

/// Writing the last standup of the same log twice gives the same text and
/// the same success or failure.
pub proof fn lemma_report_deterministic(
    log: Seq<char>,
    start: Seq<char>,
    discussion: Seq<char>,
    end: Seq<char>,
    before: Seq<char>,
    after1: Seq<char>,
    r1: Result<(), StandupError>,
    after2: Seq<char>,
    r2: Result<(), StandupError>,
)
    requires
        report_written(log, start, discussion, end, before, after1, r1),
        report_written(log, start, discussion, end, before, after2, r2),
    ensures
        after1 == after2,
        r1 is Ok <==> r2 is Ok,
{
}

/// A header line up to the discussion marker is preceded in the report by an
/// empty line.
pub proof fn lemma_header_preceded_by_blank(
    log: Seq<char>,
    start: Seq<char>,
    discussion: Seq<char>,
    end: Seq<char>,
    i: int,
)
    requires
        markers_in_order(lines_of(log), start, discussion, end),
        last_marker(lines_of(log), start) <= i <= last_marker(lines_of(log), discussion),
        is_header(field(lines_of(log)[i], 2)),
    ensures
        exists|p: int|
            line_at(last_standup_report(lines_of(log), start, discussion, end), p, Seq::empty())
                && line_at(
                last_standup_report(lines_of(log), start, discussion, end),
                p + 1,
                field(lines_of(log)[i], 2),
            ),
{
    let lines = lines_of(log);
    lemma_last_marker_is_last(lines, end);
    let ls = last_marker(lines, start);
    let recs = block_records(lines, ls, last_marker(lines, discussion), last_marker(lines, end));
    let k = i - ls;
    let c = field(lines[i], 2);
    lemma_join_line(recs, k);
    let text = join_lines(recs);
    let p = join_lines(recs.take(k)).len() as int;
    assert(recs[k] == seq!['\n'] + c);
    assert(text.subrange(p, p + 1 + c.len()) == seq!['\n'] + c);
    assert(text.subrange(p, p) =~= Seq::<char>::empty());
    assert(text[p] == text.subrange(p, p + 1 + c.len())[0]);
    assert(text.subrange(p + 1, p + 1 + c.len()) =~= text.subrange(p, p + 1 + c.len()).subrange(
        1,
        1 + c.len() as int,
    ));
    assert((seq!['\n'] + c)[0] == '\n');
    assert(text[p] == '\n');
    assert((seq!['\n'] + c).subrange(1, 1 + c.len() as int) =~= c);
    assert(line_at(text, p, Seq::empty()));
    assert(text[p + recs[k].len()] == '\n');
    assert(p + 1 + c.len() == p + recs[k].len());
    assert(line_at(text, p + 1, c));
    assert(last_standup_report(lines, start, discussion, end) == text);
}

/// A line after the discussion marker reads in the report as an indent of
/// four spaces, the speaker, a tab and the message.
pub proof fn lemma_discussion_line(
    log: Seq<char>,
    start: Seq<char>,
    discussion: Seq<char>,
    end: Seq<char>,
    i: int,
)
    requires
        markers_in_order(lines_of(log), start, discussion, end),
        last_marker(lines_of(log), discussion) < i <= last_marker(lines_of(log), end),
    ensures
        exists|p: int|
            line_at(
                last_standup_report(lines_of(log), start, discussion, end),
                p,
                seq![' ', ' ', ' ', ' '] + field(lines_of(log)[i], 1) + seq!['\t'] + field(
                    lines_of(log)[i],
                    2,
                ),
            ),
{
    let lines = lines_of(log);
    lemma_last_marker_is_last(lines, end);
    let ls = last_marker(lines, start);
    let recs = block_records(lines, ls, last_marker(lines, discussion), last_marker(lines, end));
    lemma_join_line(recs, i - ls);
    let p = join_lines(recs.take(i - ls)).len() as int;
    assert(recs[i - ls] == record(lines[i], true));
    assert(line_at(join_lines(recs), p, recs[i - ls]));
    assert(last_standup_report(lines, start, discussion, end) == join_lines(recs));
}

/// When all three markers occur but the end marker's last occurrence comes
/// before the discussion marker's, locating fails with the three positions.
pub proof fn lemma_end_before_discussion(
    lines: Seq<Seq<char>>,
    start: Seq<char>,
    discussion: Seq<char>,
    end: Seq<char>,
    r: Result<StandupBounds, StandupError>,
)
    requires
        located(lines, start, discussion, end, r),
        last_marker(lines, start) >= 0,
        0 <= last_marker(lines, end) < last_marker(lines, discussion),
    ensures
        r matches Err(StandupError::IrcStandupPositionInvalid(a, b, c)) && a == last_marker(
            lines,
            start,
        ) && b == last_marker(lines, discussion) && c == last_marker(lines, end),
{
}

/// When the start marker occurs but no line holds the discussion marker,
/// locating fails naming the discussion marker.
pub proof fn lemma_discussion_missing(
    lines: Seq<Seq<char>>,
    start: Seq<char>,
    discussion: Seq<char>,
    end: Seq<char>,
    r: Result<StandupBounds, StandupError>,
)
    requires
        located(lines, start, discussion, end, r),
        last_marker(lines, start) >= 0,
        forall|i: int| 0 <= i < lines.len() ==> !is_substring(discussion, #[trigger] lines[i]),
    ensures
        r matches Err(StandupError::StringNotFound(m)) && m@ == discussion,
{
    lemma_last_marker_is_last(lines, discussion);
}

/// The number of lines among `lines[from..to]` whose message is a header.
pub open spec fn headers_in(lines: Seq<Seq<char>>, from: int, to: int) -> nat
    decreases to - from,
{
    if to <= from {
        0
    } else {
        headers_in(lines, from, to - 1) + if is_header(field(lines[to - 1], 2)) {
            1nat
        } else {
            0nat
        }
    }
}

proof fn lemma_record_newlines(l: Seq<char>, in_discussion: bool)
    requires
        forall|j: int| 0 <= j < l.len() ==> l[j] != '\n',
    ensures
        newlines(record(l, in_discussion)) == if !in_discussion && is_header(field(l, 2)) {
            1nat
        } else {
            0nat
        },
{
    lemma_split_on_lacks(l, '\t', '\n');
    let user = field(l, 1);
    let content = field(l, 2);
    assert forall|j: int| 0 <= j < user.len() implies user[j] != '\n' by {
        assert(user == split_on(l, '\t')[1]);
    }
    assert forall|j: int| 0 <= j < content.len() implies content[j] != '\n' by {
        assert(content == split_on(l, '\t')[2]);
    }
    lemma_newlines_none(user);
    lemma_newlines_none(content);
    let indent = seq![' ', ' ', ' ', ' '];
    let tab = seq!['\t'];
    let nl = seq!['\n'];
    lemma_newlines_none(indent);
    lemma_newlines_none(tab);
    assert(nl.drop_last() =~= Seq::<char>::empty());
    assert(newlines(Seq::<char>::empty()) == 0);
    assert(newlines(nl) == 1);
    if in_discussion {
        lemma_newlines_concat(indent, user);
        lemma_newlines_concat(indent + user, tab);
        lemma_newlines_concat(indent + user + tab, content);
    } else if is_header(content) {
        lemma_newlines_concat(nl, content);
    }
}

proof fn lemma_report_newlines_upto(lines: Seq<Seq<char>>, s: int, d: int, e: int, k: int)
    requires
        0 <= s < d < e < lines.len(),
        0 <= k <= e - s + 1,
        forall|i: int, j: int|
            0 <= i < lines.len() && 0 <= j < lines[i].len() ==> #[trigger] lines[i][j] != '\n',
    ensures
        newlines(join_lines(block_records(lines, s, d, e).take(k))) == k + headers_in(
            lines,
            s,
            if s + k <= d + 1 {
                s + k
            } else {
                d + 1
            },
        ),
    decreases k,
{
    let recs = block_records(lines, s, d, e);
    if k == 0 {
        assert(recs.take(0) =~= Seq::<Seq<char>>::empty());
    } else {
        lemma_report_newlines_upto(lines, s, d, e, k - 1);
        let t = recs.take(k);
        assert(t.drop_last() =~= recs.take(k - 1));
        let prev = join_lines(recs.take(k - 1));
        let l = lines[s + k - 1];
        assert forall|j: int| 0 <= j < l.len() implies l[j] != '\n' by {
            assert(lines[s + k - 1][j] != '\n');
        }
        lemma_record_newlines(l, s + k - 1 > d);
        assert(t.last() == record(l, s + k - 1 > d));
        lemma_newlines_concat(prev, t.last());
        lemma_newlines_concat(prev + t.last(), seq!['\n']);
        assert(seq!['\n'].drop_last() =~= Seq::<char>::empty());
        assert(newlines(Seq::<char>::empty()) == 0);
        assert(newlines(seq!['\n']) == 1);
        assert(join_lines(t) == prev + t.last() + seq!['\n']);
        if s + k <= d + 1 {
            assert(headers_in(lines, s, s + k) == headers_in(lines, s, s + k - 1) + if is_header(
                field(l, 2),
            ) {
                1nat
            } else {
                0nat
            });
        }
    }
}

/// The report of a standup has one newline for each log line from the start
/// marker through the end marker, and one more for each header line up to
/// the discussion marker, which is preceded by an empty line.
pub proof fn lemma_report_newline_count(
    log: Seq<char>,
    start: Seq<char>,
    discussion: Seq<char>,
    end: Seq<char>,
)
    requires
        markers_in_order(lines_of(log), start, discussion, end),
    ensures
        newlines(last_standup_report(lines_of(log), start, discussion, end)) == last_marker(
            lines_of(log),
            end,
        ) - last_marker(lines_of(log), start) + 1 + headers_in(
            lines_of(log),
            last_marker(lines_of(log), start),
            last_marker(lines_of(log), discussion) + 1,
        ),
{
    let lines = lines_of(log);
    lemma_last_marker_is_last(lines, end);
    lemma_lines_lack_newline(log);
    let s = last_marker(lines, start);
    let d = last_marker(lines, discussion);
    let e = last_marker(lines, end);
    lemma_report_newlines_upto(lines, s, d, e, e - s + 1);
    let recs = block_records(lines, s, d, e);
    assert(recs.take(e - s + 1) =~= recs);
}

} // verus!
