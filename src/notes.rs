//! Standup notes files and the choice of an IRC log file.

use crate::irclog::is_header;
use crate::text::{is_substring, lines_of, split_lines, str_contains};
use vstd::prelude::*;
use vstd::string::*;

verus! {

/// The path that results from joining the path `name` onto the path `base`.
pub uninterp spec fn joined_path(base: Seq<char>, name: Seq<char>) -> Seq<char>;

/// Relies on `Path::join`: `name` appended to `base` as a path; both are
/// UTF-8, so the result converts to a `String` without loss.
#[verifier::external_body]
fn join_path(base: &str, name: &str) -> (r: String)
    ensures
        r@ == joined_path(base@, name@),
{
    std::path::Path::new(base).join(name).to_string_lossy().into_owned()
}

/// The name of the notes file of a project.
pub open spec fn notes_file_name(project_code: Seq<char>) -> Seq<char> {
    project_code + seq!['.', 'm', 'd']
}

/// The path of the standup notes of `project_code` in `sup_dir_notes`.
pub fn notes_path(sup_dir_notes: &str, project_code: &str) -> (r: String)
    ensures
        r@ == joined_path(sup_dir_notes@, notes_file_name(project_code@)),
{
    proof {
        reveal_strlit(".md");
    }
    let name = String::from_str(project_code).concat(".md");
    assert(name@ =~= notes_file_name(project_code@));
    join_path(sup_dir_notes, name.as_str())
}

/// A line of the notes that names the next engineer: a header holding the
/// search string.
pub open spec fn names_engineer(line: Seq<char>, next_engineer: Seq<char>) -> bool {
    is_header(line) && is_substring(next_engineer, line)
}

/// The header lines of the notes `notes` that contain `next_engineer`, in order.
pub fn next_engineer_lines(notes: &str, next_engineer: &str) -> (r: Vec<String>)
    ensures
        r.deep_view() == lines_of(notes@).filter(|l: Seq<char>| names_engineer(l, next_engineer@)),
{
    let lines = split_lines(notes);
    let ghost all = lines_of(notes@);
    let ghost pred = |l: Seq<char>| names_engineer(l, next_engineer@);
    let mut r: Vec<String> = Vec::new();
    for i in 0..lines.len()
        invariant
            lines.deep_view() == all,
            pred == (|l: Seq<char>| names_engineer(l, next_engineer@)),
            r.deep_view() == all.take(i as int).filter(pred),
    {
        let line = lines[i].as_str();
        let ghost t = all.take(i + 1);
        proof {
            assert(all[i as int] == line@);
            assert(t.drop_last() =~= all.take(i as int));
            reveal(Seq::filter);
        }
        let keep = line.unicode_len() > 0 && line.get_char(0) == '#' && str_contains(
            line,
            next_engineer,
        );
        if keep {
            let ghost before = r.deep_view();
            r.push(lines[i].clone());
            assert(r.deep_view() =~= before.push(line@));
        }
        assert(r.deep_view() =~= t.filter(pred));
    }
    assert(all.take(lines.len() as int) =~= all);
    r
}

/// Positions, in order, of the file names in `names` that contain `pattern`.
pub open spec fn matching_names(names: Seq<Seq<char>>, pattern: Seq<char>) -> Seq<int>
    decreases names.len(),
{
    if names.len() == 0 {
        Seq::<int>::empty()
    } else {
        let prev = matching_names(names.drop_last(), pattern);
        if is_substring(pattern, names.last()) {
            prev.push(names.len() - 1)
        } else {
            prev
        }
    }
}

/// The positions of the IRC log file names that contain `pattern`, in order;
/// empty when none does.
pub fn matching_irc_logs(names: &[String], pattern: &str) -> (r: Vec<usize>)
    ensures
        r@.map_values(|i: usize| i as int) == matching_names(names.deep_view(), pattern@),
{
    let ghost all = names.deep_view();
    let mut r: Vec<usize> = Vec::new();
    for i in 0..names.len()
        invariant
            all == names.deep_view(),
            r@.map_values(|i: usize| i as int) == matching_names(all.take(i as int), pattern@),
    {
        let ghost t = all.take(i + 1);
        assert(t.drop_last() =~= all.take(i as int));
        assert(t.last() == names[i as int]@);
        if str_contains(names[i].as_str(), pattern) {
            let ghost before = r@;
            r.push(i);
            assert(r@.map_values(|i: usize| i as int) =~= before.map_values(|i: usize| i as int).push(
                i as int,
            ));
        }
    }
    assert(all.take(names.len() as int) =~= all);
    r
}

} // verus!
