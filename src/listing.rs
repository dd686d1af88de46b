//! Reading the dependency resolver's output.
//!
//! The resolver prints one line per dependency; the lines of interest have
//! the shape `name => /resolved/path (0xADDRESS)`. Every other line is
//! skipped, and so is an entry the resolver could not resolve
//! (`name => not found`). Tabs are ignored.
use vstd::prelude::*;

verus! {

pub const NEWLINE: u8 = 10;

pub const TAB: u8 = 9;

pub const SPACE: u8 = 32;

pub const SLASH: u8 = 47;

/// The separator ` => ` sits at position `i` of `s`.
pub open spec fn sep_at(s: Seq<u8>, i: int) -> bool {
    0 <= i && i + 4 <= s.len() && s[i] == SPACE && s[i + 1] == 61u8 && s[i + 2] == 62u8
        && s[i + 3] == SPACE
}

/// The first position at or after `from` where the separator starts, or
/// `s.len()` when there is none.
pub open spec fn sep_index(s: Seq<u8>, from: int) -> int
    decreases s.len() - from,
{
    if from < 0 || from + 4 > s.len() {
        s.len() as int
    } else if sep_at(s, from) {
        from
    } else {
        sep_index(s, from + 1)
    }
}

/// The first position at or after `from` that holds `b`, or `s.len()`.
pub open spec fn index_of(s: Seq<u8>, b: u8, from: int) -> int
    decreases s.len() - from,
{
    if from < 0 || from >= s.len() {
        s.len() as int
    } else if s[from] == b {
        from
    } else {
        index_of(s, b, from + 1)
    }
}

pub open spec fn not_tab(b: u8) -> bool {
    b != TAB
}

pub open spec fn strip_tabs(s: Seq<u8>) -> Seq<u8> {
    s.filter(|b: u8| not_tab(b))
}

/// What a line without tabs contributes. The text after the first
/// separator must hold exactly one space, with a non-empty field before it
/// (a path, then an annotation); otherwise the line itself is the error.
/// When the first field is an absolute path it is the resolved path; when it
/// is not (an entry the resolver left unresolved, such as `not found`) the
/// line contributes nothing, as does a line without separator.
pub open spec fn stripped_entry(l: Seq<u8>) -> Result<Option<Seq<u8>>, Seq<u8>> {
    let p = sep_index(l, 0);
    if p >= l.len() {
        Ok(None)
    } else {
        let right = l.subrange(p + 4, l.len() as int);
        let q = index_of(right, SPACE, 0);
        if q < right.len() && index_of(right, SPACE, q + 1) == right.len() && q > 0 {
            if right[0] == SLASH {
                Ok(Some(right.take(q)))
            } else {
                Ok(None)
            }
        } else {
            Err(l)
        }
    }
}

/// What one line of the listing contributes.
pub open spec fn line_entry(raw: Seq<u8>) -> Result<Option<Seq<u8>>, Seq<u8>> {
    stripped_entry(strip_tabs(raw))
}

pub open spec fn opt_seq(o: Option<Seq<u8>>) -> Seq<Seq<u8>> {
    match o {
        Some(p) => seq![p],
        None => Seq::empty(),
    }
}

/// The resolved paths of the lines starting at `start`, in order, or the
/// first malformed line.
pub open spec fn listing_from(s: Seq<u8>, start: int) -> Result<Seq<Seq<u8>>, Seq<u8>>
    decreases s.len() - start,
{
    let e = index_of(s, NEWLINE, start);
    match line_entry(s.subrange(start, e)) {
        Err(l) => Err(l),
        Ok(o) => if 0 <= start <= e < s.len() {
            match listing_from(s, e + 1) {
                Err(l) => Err(l),
                Ok(rest) => Ok(opt_seq(o) + rest),
            }
        } else {
            Ok(opt_seq(o))
        },
    }
}

/// The resolved paths of a whole listing, or its first malformed line.
pub open spec fn listing(s: Seq<u8>) -> Result<Seq<Seq<u8>>, Seq<u8>> {
    listing_from(s, 0)
}

pub open spec fn views(v: Seq<Vec<u8>>) -> Seq<Seq<u8>> {
    v.map_values(|x: Vec<u8>| x@)
}

/// A line of the listing that does not have the expected shape; it is
/// held without its tabs.
pub struct MalformedLine {
    pub line: Vec<u8>,
}

/// Position of the first `b` in `s` at or after `from`, or `s.len()`.
fn find_byte(s: &[u8], b: u8, from: usize) -> (r: usize)
    requires
        from <= s@.len(),
    ensures
        r == index_of(s@, b, from as int),
        from <= r <= s@.len(),
{
    let mut i: usize = from;
    while i < s.len() && s[i] != b
        invariant
            from <= i <= s@.len(),
            index_of(s@, b, from as int) == index_of(s@, b, i as int),
        decreases s@.len() - i,
    {
        i = i + 1;
    }
    i
}

fn find_sep(s: &Vec<u8>) -> (r: usize)
    ensures
        r == sep_index(s@, 0),
{
    let mut i: usize = 0;
    while s.len() - i >= 4 && !(s[i] == SPACE && s[i + 1] == 61u8 && s[i + 2] == 62u8 && s[i
        + 3] == SPACE)
        invariant
            i <= s.len(),
            sep_index(s@, 0) == sep_index(s@, i as int),
        decreases s.len() - i,
    {
        i = i + 1;
    }
    if s.len() - i < 4 {
        s.len()
    } else {
        i
    }
}

/// The bytes of `s` from `start` to `end`, without tabs.
fn strip_range(s: &[u8], start: usize, end: usize) -> (r: Vec<u8>)
    requires
        start <= end <= s@.len(),
    ensures
        r@ == strip_tabs(s@.subrange(start as int, end as int)),
{
    let mut r: Vec<u8> = Vec::new();
    let mut i: usize = start;
    while i < end
        invariant
            start <= i <= end <= s@.len(),
            r@ == strip_tabs(s@.subrange(start as int, i as int)),
        decreases end - i,
    {
        proof {
            let pre = s@.subrange(start as int, i as int);
            assert(s@.subrange(start as int, i + 1) =~= pre.push(s@[i as int]));
            pre.lemma_filter_push(s@[i as int], |b: u8| not_tab(b));
        }
        if s[i] != TAB {
            r.push(s[i]);
        }
        i = i + 1;
    }
    r
}

/// The entry of a line that holds no tab.
fn entry_of_stripped(l: Vec<u8>) -> (r: Result<Option<Vec<u8>>, MalformedLine>)
    ensures
        match r {
            Ok(Some(p)) => stripped_entry(l@) == Ok::<Option<Seq<u8>>, Seq<u8>>(Some(p@)),
            Ok(None) => stripped_entry(l@) == Ok::<Option<Seq<u8>>, Seq<u8>>(None),
            Err(e) => stripped_entry(l@) == Err::<Option<Seq<u8>>, Seq<u8>>(e.line@),
        },
{
    let p = find_sep(&l);
    if p >= l.len() {
        return Ok(None);
    }
    proof {
        lemma_sep_index_bounds(l@, 0);
    }
    let mut right: Vec<u8> = Vec::new();
    let mut k: usize = p + 4;
    while k < l.len()
        invariant
            p + 4 <= k <= l@.len(),
            right@ == l@.subrange(p + 4, k as int),
        decreases l.len() - k,
    {
        right.push(l[k]);
        k = k + 1;
    }
    let q = find_byte(right.as_slice(), SPACE, 0);
    if q < right.len() {
        let q2 = find_byte(right.as_slice(), SPACE, q + 1);
        if q2 == right.len() && q > 0 {
            if right[0] != SLASH {
                return Ok(None);
            }
            let mut path: Vec<u8> = Vec::new();
            let mut j: usize = 0;
            while j < q
                invariant
                    q < right@.len(),
                    j <= q,
                    path@ == right@.take(j as int),
                decreases q - j,
            {
                path.push(right[j]);
                j = j + 1;
                proof {
                    assert(path@ =~= right@.take(j as int));
                }
            }
            return Ok(Some(path));
        }
    }
    Err(MalformedLine { line: l })
}

proof fn lemma_sep_index_bounds(s: Seq<u8>, from: int)
    requires
        0 <= from,
    ensures
        sep_index(s, from) == s.len() || (from <= sep_index(s, from) && sep_at(
            s,
            sep_index(s, from),
        )),
    decreases s.len() - from,
{
    if from + 4 <= s.len() && !sep_at(s, from) {
        lemma_sep_index_bounds(s, from + 1);
    }
}

/// Reads one line of the listing: `Ok(None)` for a line to skip,
/// `Ok(Some(path))` for a dependency, `Err` for a malformed line.
pub fn parse_line(raw: &[u8]) -> (r: Result<Option<Vec<u8>>, MalformedLine>)
    ensures
        match r {
            Ok(Some(p)) => line_entry(raw@) == Ok::<Option<Seq<u8>>, Seq<u8>>(Some(p@)),
            Ok(None) => line_entry(raw@) == Ok::<Option<Seq<u8>>, Seq<u8>>(None),
            Err(e) => line_entry(raw@) == Err::<Option<Seq<u8>>, Seq<u8>>(e.line@),
        },
{
    let l = strip_range(raw, 0, raw.len());
    proof {
        assert(raw@.subrange(0, raw@.len() as int) =~= raw@);
    }
    entry_of_stripped(l)
}

/// Reads the whole listing: the resolved paths in the order in which they
/// appear, or the first malformed line.
pub fn parse_listing(text: &[u8]) -> (r: Result<Vec<Vec<u8>>, MalformedLine>)
    ensures
        match r {
            Ok(v) => listing(text@) == Ok::<Seq<Seq<u8>>, Seq<u8>>(views(v@)),
            Err(e) => listing(text@) == Err::<Seq<Seq<u8>>, Seq<u8>>(e.line@),
        },
{
    let mut out: Vec<Vec<u8>> = Vec::new();
    let mut start: usize = 0;
    loop
        invariant
            start <= text@.len(),
            listing(text@) == match listing_from(text@, start as int) {
                Ok(rest) => Ok::<Seq<Seq<u8>>, Seq<u8>>(views(out@) + rest),
                Err(l) => Err(l),
            },
        decreases text@.len() - start,
    {
        let e = find_byte(text, NEWLINE, start);
        let l = strip_range(text, start, e);
        match entry_of_stripped(l) {
            Err(m) => {
                return Err(m);
            },
            Ok(o) => {
                let ghost before = views(out@);
                let ghost og: Option<Seq<u8>> = match &o {
                    Some(p) => Some(p@),
                    None => None,
                };
                match o {
                    Some(p) => {
                        out.push(p);
                    },
                    None => {},
                }
                proof {
                    assert(views(out@) =~= before + opt_seq(og));
                }
                if e >= text.len() {
                    proof {
                        assert(views(out@) + Seq::<Seq<u8>>::empty() =~= views(out@));
                    }
                    return Ok(out);
                }
                proof {
                    match listing_from(text@, e + 1) {
                        Ok(rest) => {
                            assert(before + (opt_seq(og) + rest) =~= views(out@) + rest);
                        },
                        Err(_) => {},
                    }
                }
                start = e + 1;
            },
        }
    }
}

} // verus!
