//! Removal of NUL bytes and control characters from file content.
use vstd::prelude::*;

verus! {

/// A control character that is removed: every byte below 32 except NUL,
/// tab, line feed and carriage return.
pub open spec fn is_control(b: u8) -> bool {
    (1 <= b <= 8) || (11 <= b <= 12) || (14 <= b <= 31)
}

/// A byte that is removed: NUL or a control character.
pub open spec fn is_removed(b: u8) -> bool {
    b == 0 || is_control(b)
}

/// The bytes of `bs` that are kept, in order.
pub open spec fn kept(bs: Seq<u8>) -> Seq<u8> {
    bs.filter(|b: u8| !is_removed(b))
}

/// The number of NUL bytes in `bs`.
pub open spec fn nul_count(bs: Seq<u8>) -> nat {
    bs.filter(|b: u8| b == 0).len()
}

/// The number of removed control characters in `bs`.
pub open spec fn control_count(bs: Seq<u8>) -> nat {
    bs.filter(|b: u8| is_control(b)).len()
}

/// The segments of `bs` between line feeds, in order; the last one is what
/// follows the last line feed, possibly nothing.
pub open spec fn lines(bs: Seq<u8>) -> Seq<Seq<u8>>
    decreases bs.len(),
{
    if bs.len() == 0 {
        seq![Seq::empty()]
    } else {
        let prev = lines(bs.drop_last());
        if bs.last() == 10 {
            prev.push(Seq::empty())
        } else {
            prev.drop_last().push(prev.last().push(bs.last()))
        }
    }
}

/// Whether a line holds a byte that is removed.
pub open spec fn has_removed(line: Seq<u8>) -> bool {
    exists|i: int| 0 <= i < line.len() && is_removed(#[trigger] line[i])
}

/// The number of lines of `bs` that lose at least one byte; a last line
/// without a line feed counts too.
pub open spec fn lines_affected(bs: Seq<u8>) -> nat {
    lines(bs).filter(|line: Seq<u8>| has_removed(line)).len()
}

/// What the cleaning loop holds after reading `bs`: NUL bytes, control
/// characters, lines already finished that lost a byte, and whether the line
/// being read has lost one.
spec fn tally(bs: Seq<u8>) -> (nat, nat, nat, bool)
    decreases bs.len(),
{
    if bs.len() == 0 {
        (0, 0, 0, false)
    } else {
        let t = tally(bs.drop_last());
        let b = bs.last();
        if b == 0 {
            (t.0 + 1, t.1, t.2, true)
        } else if is_control(b) {
            (t.0, t.1 + 1, t.2, true)
        } else if b == 10 {
            (t.0, t.1, if t.3 { t.2 + 1 } else { t.2 }, false)
        } else {
            t
        }
    }
}

/// The loop's counts are the counts stated over the whole buffer.
proof fn lemma_tally_counts(bs: Seq<u8>)
    ensures
        tally(bs).0 == nul_count(bs),
        tally(bs).1 == control_count(bs),
        lines(bs).len() > 0,
        tally(bs).2 == lines(bs).drop_last().filter(|line: Seq<u8>| has_removed(line)).len(),
        tally(bs).3 == has_removed(lines(bs).last()),
        lines_affected(bs) == if tally(bs).3 { tally(bs).2 + 1 } else { tally(bs).2 },
    decreases bs.len(),
{
    reveal(Seq::filter);
    let ls = lines(bs);
    if bs.len() == 0 {
        let e = Seq::<u8>::empty();
        assert(ls.drop_last() =~= Seq::<Seq<u8>>::empty());
        assert(!has_removed(e));
        assert(ls.drop_last().filter(|line: Seq<u8>| has_removed(line)) =~= Seq::<Seq<u8>>::empty());
    } else {
        let p = bs.drop_last();
        let b = bs.last();
        lemma_tally_counts(p);
        let lp = lines(p);
        if b == 10 {
            assert(ls.drop_last() =~= lp);
            assert(lp.drop_last().push(lp.last()) =~= lp);
            assert(!has_removed(Seq::<u8>::empty()));
        } else {
            let last = lp.last().push(b);
            assert(ls.drop_last() =~= lp.drop_last());
            assert(ls.last() == last);
            if has_removed(lp.last()) {
                let i = choose|i: int| 0 <= i < lp.last().len() && is_removed(#[trigger] lp.last()[i]);
                assert(last[i] == lp.last()[i]);
            }
            if is_removed(b) {
                assert(last[last.len() - 1] == b);
            }
            if has_removed(last) {
                let i = choose|i: int| 0 <= i < last.len() && is_removed(#[trigger] last[i]);
                if i < lp.last().len() {
                    assert(last[i] == lp.last()[i]);
                }
            }
        }
        assert(ls.drop_last().push(ls.last()) =~= ls);
    }
}

/// What cleaning found in a buffer.
#[derive(Clone, Copy, Debug, PartialEq, Eq, Structural)]
pub struct CleanStats {
    pub null_bytes: usize,
    pub control_chars: usize,
    pub total_bytes: usize,
    pub lines_affected: usize,
}

/// The text that `bs` decodes to as UTF-8, each invalid sequence replaced by
/// U+FFFD.
pub uninterp spec fn lossy_text(bs: Seq<u8>) -> Seq<char>;

/// Relies on `String::from_utf8_lossy`: decodes the bytes as UTF-8, replacing
/// invalid sequences; the result depends on the bytes alone, and no bytes
/// give the empty string.
#[verifier::external_body]
fn utf8_lossy(bs: &[u8]) -> (r: String)
    ensures
        r@ == lossy_text(bs@),
        bs@.len() == 0 ==> r@.len() == 0,
{
    String::from_utf8_lossy(bs).into_owned()
}

proof fn lemma_tally_bounded(bs: Seq<u8>)
    ensures
        tally(bs).0 + tally(bs).1 <= bs.len(),
        (if tally(bs).3 { tally(bs).2 + 1 } else { tally(bs).2 }) <= bs.len(),
    decreases bs.len(),
{
    if bs.len() > 0 {
        lemma_tally_bounded(bs.drop_last());
    }
}

/// Drops the NUL bytes and control characters of `buffer`. With
/// `collect_stats` the counts are gathered; without it only the total is.
pub fn sanitize_bytes(buffer: &[u8], collect_stats: bool) -> (r: (Vec<u8>, CleanStats))
    ensures
        r.0@ == kept(buffer@),
        r.1.total_bytes == buffer@.len(),
        collect_stats ==> r.1.null_bytes == nul_count(buffer@),
        collect_stats ==> r.1.control_chars == control_count(buffer@),
        collect_stats ==> r.1.lines_affected == lines_affected(buffer@),
        !collect_stats ==> r.1.null_bytes == 0 && r.1.control_chars == 0 && r.1.lines_affected
            == 0,
{
    let mut stats = CleanStats {
        null_bytes: 0,
        control_chars: 0,
        total_bytes: buffer.len(),
        lines_affected: 0,
    };
    let mut cleaned: Vec<u8> = Vec::new();
    let mut current_line_affected = false;
    let mut i: usize = 0;
    while i < buffer.len()
        invariant
            i <= buffer.len(),
            stats.total_bytes == buffer@.len(),
            cleaned@ == kept(buffer@.take(i as int)),
            collect_stats ==> stats.null_bytes == tally(buffer@.take(i as int)).0,
            collect_stats ==> stats.control_chars == tally(buffer@.take(i as int)).1,
            collect_stats ==> stats.lines_affected == tally(buffer@.take(i as int)).2,
            collect_stats ==> current_line_affected == tally(buffer@.take(i as int)).3,
            !collect_stats ==> stats.null_bytes == 0 && stats.control_chars == 0
                && stats.lines_affected == 0 && !current_line_affected,
        decreases buffer.len() - i,
    {
        let byte = buffer[i];
        let ghost t = buffer@.take(i as int + 1);
        assert(t.drop_last() =~= buffer@.take(i as int));
        assert(t.last() == byte);
        proof {
            lemma_tally_bounded(t);
            reveal(Seq::filter);
        }
        if byte == 0 {
            if collect_stats {
                stats.null_bytes = stats.null_bytes + 1;
                current_line_affected = true;
            }
        } else if (1 <= byte && byte <= 8) || (11 <= byte && byte <= 12) || (14 <= byte && byte
            <= 31) {
            if collect_stats {
                stats.control_chars = stats.control_chars + 1;
                current_line_affected = true;
            }
        } else if byte == 10 {
            cleaned.push(byte);
            if collect_stats && current_line_affected {
                stats.lines_affected = stats.lines_affected + 1;
                current_line_affected = false;
            }
        } else {
            cleaned.push(byte);
        }
        i = i + 1;
    }
    assert(buffer@.take(i as int) =~= buffer@);
    proof {
        lemma_tally_bounded(buffer@);
        lemma_tally_counts(buffer@);
    }
    if collect_stats && current_line_affected {
        stats.lines_affected = stats.lines_affected + 1;
    }
    (cleaned, stats)
}

/// Cleans `buffer`: the kept bytes decoded as UTF-8 with invalid sequences
/// replaced, and what was found.
pub fn clean_content(buffer: &[u8], collect_stats: bool) -> (r: (String, CleanStats))
    ensures
        r.0@ == lossy_text(kept(buffer@)),
        r.1.total_bytes == buffer@.len(),
        collect_stats ==> r.1.null_bytes == nul_count(buffer@),
        collect_stats ==> r.1.control_chars == control_count(buffer@),
        collect_stats ==> r.1.lines_affected == lines_affected(buffer@),
        !collect_stats ==> r.1.null_bytes == 0 && r.1.control_chars == 0 && r.1.lines_affected
            == 0,
{
    let (cleaned, stats) = sanitize_bytes(buffer, collect_stats);
    let text = utf8_lossy(cleaned.as_slice());
    (text, stats)
}

} // verus!
