//! Slash-separated paths as sequences of components.
use vstd::prelude::*;
use vstd::string::*;

verus! {

/// The separator between path components.
pub open spec fn is_sep(c: char) -> bool {
    c == '/'
}

/// Reads `p` left to right: the components finished so far, and the
/// component still being read.
pub open spec fn scan(p: Seq<char>) -> (Seq<Seq<char>>, Seq<char>)
    decreases p.len(),
{
    if p.len() == 0 {
        (Seq::empty(), Seq::empty())
    } else {
        let prev = scan(p.drop_last());
        if is_sep(p.last()) {
            if prev.1.len() == 0 {
                prev
            } else {
                (prev.0.push(prev.1), Seq::empty())
            }
        } else {
            (prev.0, prev.1.push(p.last()))
        }
    }
}

/// The components of a path: the maximal runs of characters other than the
/// separator. Repeated, leading and trailing separators yield no component.
pub open spec fn components(p: Seq<char>) -> Seq<Seq<char>> {
    let s = scan(p);
    if s.1.len() == 0 {
        s.0
    } else {
        s.0.push(s.1)
    }
}

/// A well-formed component: not empty, and free of separators.
pub open spec fn is_component(c: Seq<char>) -> bool {
    c.len() > 0 && forall|i: int| 0 <= i < c.len() ==> !is_sep(#[trigger] c[i])
}

/// Components written one after another, with one separator between each two.
pub open spec fn joined(cs: Seq<Seq<char>>) -> Seq<char>
    decreases cs.len(),
{
    if cs.len() == 0 {
        Seq::empty()
    } else if cs.len() == 1 {
        cs[0]
    } else {
        joined(cs.drop_last()) + seq!['/'] + cs.last()
    }
}

/// The views of a sequence of strings.
pub open spec fn views(v: Seq<String>) -> Seq<Seq<char>> {
    v.map_values(|s: String| s@)
}

/// Whether `p` begins with the separator, as an absolute path does.
pub open spec fn is_absolute(p: Seq<char>) -> bool {
    p.len() > 0 && is_sep(p[0])
}

proof fn lemma_scan_append_plain(x: Seq<char>, c: Seq<char>)
    requires
        forall|i: int| 0 <= i < c.len() ==> !is_sep(#[trigger] c[i]),
    ensures
        scan(x + c) == (scan(x).0, scan(x).1 + c),
    decreases c.len(),
{
    if c.len() == 0 {
        assert(x + c =~= x);
        assert(scan(x).1 + c =~= scan(x).1);
    } else {
        let c0 = c.drop_last();
        assert((x + c).drop_last() =~= x + c0);
        assert((x + c).last() == c.last());
        lemma_scan_append_plain(x, c0);
        assert(scan(x).1 + c0.push(c.last()) =~= scan(x).1 + c);
        assert(c0.push(c.last()) =~= c);
        assert((scan(x).1 + c0).push(c.last()) =~= scan(x).1 + c);
    }
}

/// Every component of a path is well formed.
pub proof fn lemma_components_well_formed(p: Seq<char>)
    ensures
        forall|i: int| 0 <= i < components(p).len() ==> is_component(#[trigger] components(p)[i]),
    decreases p.len(),
{
    lemma_scan_well_formed(p);
}

proof fn lemma_scan_well_formed(p: Seq<char>)
    ensures
        forall|i: int| 0 <= i < scan(p).0.len() ==> is_component(#[trigger] scan(p).0[i]),
        forall|i: int| 0 <= i < scan(p).1.len() ==> !is_sep(#[trigger] scan(p).1[i]),
    decreases p.len(),
{
    if p.len() > 0 {
        lemma_scan_well_formed(p.drop_last());
        let prev = scan(p.drop_last());
        if !is_sep(p.last()) {
            assert forall|i: int| 0 <= i < scan(p).1.len() implies !is_sep(#[trigger] scan(p).1[i]) by {
                if i < prev.1.len() {
                    assert(scan(p).1[i] == prev.1[i]);
                }
            }
        }
    }
}

/// Joining well-formed components and splitting the result again gives the
/// same components back.
pub proof fn lemma_components_of_joined(cs: Seq<Seq<char>>)
    requires
        forall|i: int| 0 <= i < cs.len() ==> is_component(#[trigger] cs[i]),
    ensures
        components(joined(cs)) == cs,
    decreases cs.len(),
{
    if cs.len() == 0 {
        assert(components(joined(cs)) =~= cs);
    } else if cs.len() == 1 {
        let e = Seq::<char>::empty();
        assert(e + cs[0] =~= cs[0]);
        lemma_scan_append_plain(e, cs[0]);
        assert(cs[0].len() > 0);
        assert(components(joined(cs)) =~= cs);
    } else {
        let front = cs.drop_last();
        assert forall|i: int| 0 <= i < front.len() implies is_component(#[trigger] front[i]) by {
            assert(front[i] == cs[i]);
        }
        lemma_components_of_joined(front);
        let j = joined(front);
        let js = j + seq!['/'];
        assert(js.drop_last() =~= j);
        assert(js.last() == '/');
        assert(scan(js).0 == components(j));
        assert(scan(js).1.len() == 0);
        assert(is_component(cs[cs.len() - 1]));
        lemma_scan_append_plain(js, cs.last());
        assert(js + cs.last() =~= joined(cs));
        assert(scan(js).1 + cs.last() =~= cs.last());
        assert(front.push(cs.last()) =~= cs);
    }
}

/// A join of well-formed components never begins with the separator.
pub proof fn lemma_joined_not_absolute(cs: Seq<Seq<char>>)
    requires
        forall|i: int| 0 <= i < cs.len() ==> is_component(#[trigger] cs[i]),
    ensures
        !is_absolute(joined(cs)),
        cs.len() > 0 ==> joined(cs).len() > 0 && joined(cs)[0] == cs[0][0],
    decreases cs.len(),
{
    if cs.len() == 1 {
        assert(is_component(cs[0]));
    } else if cs.len() > 1 {
        let front = cs.drop_last();
        assert forall|i: int| 0 <= i < front.len() implies is_component(#[trigger] front[i]) by {
            assert(front[i] == cs[i]);
        }
        lemma_joined_not_absolute(front);
        assert(is_component(cs[0]));
    }
}

/// Splits a path into its components.
pub fn split_components(p: &str) -> (r: Vec<String>)
    ensures
        views(r@) == components(p@),
{
    let n = p.unicode_len();
    let mut r: Vec<String> = Vec::new();
    let mut start: usize = 0;
    let mut i: usize = 0;
    while i < n
        invariant
            n == p@.len(),
            start <= i <= n,
            views(r@) == scan(p@.take(i as int)).0,
            p@.subrange(start as int, i as int) == scan(p@.take(i as int)).1,
        decreases n - i,
    {
        let c = p.get_char(i);
        let ghost t = p@.take(i as int + 1);
        assert(t.drop_last() =~= p@.take(i as int));
        assert(t.last() == c);
        if c == '/' {
            if start < i {
                let part = String::from_str(p.substring_char(start, i));
                let ghost before = r@;
                r.push(part);
                assert(views(r@) =~= views(before).push(part@));
            }
            start = i + 1;
        } else {
            assert(p@.subrange(start as int, i as int + 1) =~= p@.subrange(start as int, i as int).push(c));
        }
        assert(p@.subrange(start as int, i as int + 1) =~= scan(t).1);
        i = i + 1;
        assert(p@.subrange(start as int, i as int) == scan(p@.take(i as int)).1);
    }
    assert(p@.take(n as int) =~= p@);
    if start < n {
        let part = String::from_str(p.substring_char(start, n));
        let ghost before = r@;
        r.push(part);
        assert(views(r@) =~= views(before).push(part@));
    }
    r
}

/// Joins the components `cs[from..]` with one separator between each two.
pub fn join_components(cs: &Vec<String>, from: usize) -> (r: String)
    requires
        from <= cs.len(),
    ensures
        r@ == joined(views(cs@).skip(from as int)),
{
    let ghost vs = views(cs@);
    if from == cs.len() {
        assert(vs.skip(from as int) =~= Seq::<Seq<char>>::empty());
        return String::new();
    }
    let mut acc = cs[from].clone();
    assert(vs.subrange(from as int, from as int + 1) =~= seq![cs@[from as int]@]);
    let mut k: usize = from + 1;
    while k < cs.len()
        invariant
            from < k <= cs.len(),
            vs == views(cs@),
            acc@ == joined(vs.subrange(from as int, k as int)),
        decreases cs.len() - k,
    {
        let ghost prev = vs.subrange(from as int, k as int);
        let ghost next = vs.subrange(from as int, k as int + 1);
        assert(next.drop_last() =~= prev);
        assert(next.last() == cs@[k as int]@);
        acc.append("/");
        acc.append(cs[k].as_str());
        proof {
            reveal_strlit("/");
        }
        assert(acc@ =~= joined(prev) + seq!['/'] + cs@[k as int]@);
        k = k + 1;
    }
    assert(vs.subrange(from as int, cs.len() as int) =~= vs.skip(from as int));
    acc
}

} // verus!
