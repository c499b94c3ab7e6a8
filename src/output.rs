//! The text written for each collected file.
use vstd::prelude::*;
use vstd::string::*;

verus! {

/// The section for one file: the delimiter, three header lines (path, last
/// commit, last update), the delimiter again, then the content followed by
/// an empty line.
pub open spec fn section_text(
    delimiter: Seq<char>,
    relative_path: Seq<char>,
    commit: Seq<char>,
    updated: Seq<char>,
    content: Seq<char>,
) -> Seq<char> {
    delimiter + "\n"@ + "File: "@ + relative_path + "\n"@ + "Last commit: "@ + commit + "\n"@
        + "Last update: "@ + updated + "\n"@ + delimiter + "\n"@ + content + "\n\n"@
}

/// Builds the section written for one file.
pub fn file_section(
    delimiter: &str,
    relative_path: &str,
    commit: &str,
    updated: &str,
    content: &str,
) -> (r: String)
    ensures
        r@ == section_text(delimiter@, relative_path@, commit@, updated@, content@),
{
    let mut s = String::from_str(delimiter);
    s.append("\n");
    s.append("File: ");
    s.append(relative_path);
    s.append("\n");
    s.append("Last commit: ");
    s.append(commit);
    s.append("\n");
    s.append("Last update: ");
    s.append(updated);
    s.append("\n");
    s.append(delimiter);
    s.append("\n");
    s.append(content);
    s.append("\n\n");
    s
}

} // verus!
