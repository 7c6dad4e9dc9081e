//! The settings of the key server: the cookies read from its configuration file, and the track
//! and file ids of a key request.
use vstd::prelude::*;

verus! {

broadcast use {vstd::string::axiom_spec_iter, vstd::string::next_postcondition};

/// `String::push`: appends the character `c`.
#[verifier::external_body]
fn string_push(s: &mut String, c: char)
    ensures
        final(s)@ == old(s)@.push(c),
{
    s.push(c)
}

/// The characters of `s`, in order.
pub fn chars_of(s: &str) -> (r: Vec<char>)
    ensures
        r@ == s@,
{
    let mut it = s.chars();
    let mut v: Vec<char> = Vec::new();
    loop
        invariant
            vstd::std_specs::iter::IteratorSpec::remaining(&it) == s@.skip(v@.len() as int),
            v@ == s@.take(v@.len() as int),
            v@.len() <= s@.len(),
        ensures
            v@ == s@,
        decreases s@.len() - v@.len(),
    {
        match it.next() {
            Some(c) => {
                assert(s@.skip(v@.len() as int)[0] == s@[v@.len() as int]);
                v.push(c);
                assert(s@.skip(v@.len() - 1).drop_first() =~= s@.skip(v@.len() as int));
                assert(v@ =~= s@.take(v@.len() as int));
            },
            None => {
                assert(s@.skip(v@.len() as int).len() == 0);
                assert(v@ =~= s@);
                break;
            },
        }
    }
    v
}

/// The string of the characters `cs`.
pub fn string_of(cs: &[char]) -> (r: String)
    ensures
        r@ == cs@,
{
    let mut s = String::new();
    let mut i: usize = 0;
    while i < cs.len()
        invariant
            i <= cs@.len(),
            s@ == cs@.take(i as int),
        decreases cs@.len() - i,
    {
        string_push(&mut s, cs[i]);
        assert(s@ =~= cs@.take(i + 1));
        i = i + 1;
    }
    assert(cs@.take(cs@.len() as int) =~= cs@);
    s
}

/// The index of the first `c` in `s` from `from` on, if any.
pub open spec fn find_from(s: Seq<char>, c: char, from: int) -> Option<int>
    decreases s.len() - from,
{
    if from < 0 || from >= s.len() {
        None
    } else if s[from] == c {
        Some(from)
    } else {
        find_from(s, c, from + 1)
    }
}

/// A line without the carriage return that ended it before its line feed.
pub open spec fn without_cr(line: Seq<char>) -> Seq<char> {
    if line.len() > 0 && line.last() == '\r' {
        line.drop_last()
    } else {
        line
    }
}

/// The lines of `s` from `from` on, as `str::lines` gives them: split after each line feed,
/// which is dropped with a carriage return just before it; a last line needs no line feed,
/// and no line follows a final line feed.
pub open spec fn lines_from(s: Seq<char>, from: int) -> Seq<Seq<char>>
    decreases s.len() - from,
{
    if from < 0 || from >= s.len() {
        Seq::empty()
    } else {
        match find_from(s, '\n', from) {
            None => seq![s.subrange(from, s.len() as int)],
            Some(i) => if i < from || i >= s.len() {
                Seq::empty()
            } else {
                seq![without_cr(s.subrange(from, i))] + lines_from(s, i + 1)
            },
        }
    }
}

/// Where the next line feed is, and that it lies in range.
proof fn lemma_find_from(s: Seq<char>, c: char, from: int)
    ensures
        find_from(s, c, from) matches Some(i) ==> from <= i < s.len() && s[i] == c && forall|j: int|
            from <= j < i ==> s[j] != c,
        find_from(s, c, from) is None ==> forall|j: int| 0 <= from <= j < s.len() ==> s[j] != c,
    decreases s.len() - from,
{
    if 0 <= from < s.len() && s[from] != c {
        lemma_find_from(s, c, from + 1);
    }
}

/// The lines of the characters `cs`, as `str::lines` gives them.
pub fn split_lines(cs: &[char]) -> (r: Vec<Vec<char>>)
    ensures
        r@.map_values(|l: Vec<char>| l@) == lines_from(cs@, 0),
{
    let mut out: Vec<Vec<char>> = Vec::new();
    let mut cur: Vec<char> = Vec::new();
    let mut start: usize = 0;
    let mut i: usize = 0;
    while i < cs.len()
        invariant
            start <= i <= cs@.len(),
            cur@ == cs@.subrange(start as int, i as int),
            forall|j: int| start <= j < i ==> cs@[j] != '\n',
            out@.map_values(|l: Vec<char>| l@) + lines_from(cs@, start as int) == lines_from(cs@, 0),
        decreases cs@.len() - i,
    {
        if cs[i] == '\n' {
            proof {
                lemma_find_from(cs@, '\n', start as int);
                assert(find_from(cs@, '\n', start as int) == Some(i as int)) by {
                    lemma_find_from(cs@, '\n', start as int);
                    match find_from(cs@, '\n', start as int) {
                        Some(k) => {
                            if k < i {
                                assert(cs@[k] != '\n');
                            } else if k > i {
                                assert(cs@[i as int] != '\n');
                            }
                        },
                        None => {
                            assert(cs@[i as int] != '\n');
                        },
                    }
                }
            }
            let mut line = cur;
            if line.len() > 0 && line[line.len() - 1] == '\r' {
                line.pop();
            }
            assert(line@ == without_cr(cs@.subrange(start as int, i as int))) by {
                if cs@.subrange(start as int, i as int).len() > 0 && cs@.subrange(start as int, i as int).last() == '\r' {
                    assert(line@ =~= cs@.subrange(start as int, i as int).drop_last());
                }
            }
            let ghost before = out@;
            out.push(line);
            proof {
                assert(out@.map_values(|l: Vec<char>| l@) =~= before.map_values(|l: Vec<char>| l@).push(
                    without_cr(cs@.subrange(start as int, i as int)),
                ));
                assert(lines_from(cs@, start as int) == seq![without_cr(cs@.subrange(start as int, i as int))]
                    + lines_from(cs@, i + 1));
                assert(before.map_values(|l: Vec<char>| l@) + lines_from(cs@, start as int)
                    =~= out@.map_values(|l: Vec<char>| l@) + lines_from(cs@, i + 1));
            }
            cur = Vec::new();
            start = i + 1;
            assert(cur@ =~= cs@.subrange(start as int, start as int));
        } else {
            cur.push(cs[i]);
            assert(cur@ =~= cs@.subrange(start as int, i + 1));
        }
        i = i + 1;
    }
    if start < cs.len() {
        proof {
            lemma_find_from(cs@, '\n', start as int);
            assert(find_from(cs@, '\n', start as int) is None) by {
                match find_from(cs@, '\n', start as int) {
                    Some(k) => {
                        assert(cs@[k] != '\n');
                    },
                    None => {},
                }
            }
        }
        let ghost before = out@;
        out.push(cur);
        assert(out@.map_values(|l: Vec<char>| l@) =~= before.map_values(|l: Vec<char>| l@) + lines_from(cs@, start as int));
    } else {
        assert(lines_from(cs@, start as int) =~= Seq::<Seq<char>>::empty());
        assert(out@.map_values(|l: Vec<char>| l@) =~= out@.map_values(|l: Vec<char>| l@) + lines_from(cs@, start as int));
    }
    out
}

/// Whether `s` starts with `p`.
pub open spec fn starts_with(s: Seq<char>, p: Seq<char>) -> bool {
    p.len() <= s.len() && s.subrange(0, p.len() as int) == p
}

/// `s` without the double quotes at its start.
pub open spec fn strip_leading_quotes(s: Seq<char>) -> Seq<char>
    decreases s.len(),
{
    if s.len() > 0 && s[0] == '"' {
        strip_leading_quotes(s.drop_first())
    } else {
        s
    }
}

/// `s` without the double quotes at its end.
pub open spec fn strip_trailing_quotes(s: Seq<char>) -> Seq<char>
    decreases s.len(),
{
    if s.len() > 0 && s.last() == '"' {
        strip_trailing_quotes(s.drop_last())
    } else {
        s
    }
}

/// `s` without the double quotes at either end, as `trim_matches('"')` gives it.
pub open spec fn trim_quotes(s: Seq<char>) -> Seq<char> {
    strip_trailing_quotes(strip_leading_quotes(s))
}

/// The three cookies that the lines `ls` set: a line `sp_t=` sets the first, with double quotes
/// trimmed at both ends, `sp_dc=` the second and `sp_key=` the third; a later line wins, and a
/// cookie that no line sets is empty.
pub open spec fn config_values(ls: Seq<Seq<char>>) -> (Seq<char>, Seq<char>, Seq<char>)
    decreases ls.len(),
{
    if ls.len() == 0 {
        (Seq::empty(), Seq::empty(), Seq::empty())
    } else {
        let (t, d, k) = config_values(ls.drop_last());
        let l = ls.last();
        if starts_with(l, "sp_t="@) {
            (trim_quotes(l.skip(5)), d, k)
        } else if starts_with(l, "sp_dc="@) {
            (t, l.skip(6), k)
        } else if starts_with(l, "sp_key="@) {
            (t, d, l.skip(7))
        } else {
            (t, d, k)
        }
    }
}

/// Whether the characters `s` start with those of `p`.
fn has_prefix(s: &[char], p: &[char]) -> (r: bool)
    ensures
        r == starts_with(s@, p@),
{
    if p.len() > s.len() {
        return false;
    }
    let mut i: usize = 0;
    while i < p.len()
        invariant
            i <= p@.len() <= s@.len(),
            forall|j: int| 0 <= j < i ==> s@[j] == p@[j],
        decreases p@.len() - i,
    {
        if s[i] != p[i] {
            assert(s@.subrange(0, p@.len() as int)[i as int] != p@[i as int]);
            return false;
        }
        i = i + 1;
    }
    assert(s@.subrange(0, p@.len() as int) =~= p@);
    true
}

/// The characters of `s` from `from` on, without the double quotes at either end when `trim`.
fn tail_of(s: &[char], from: usize, trim: bool) -> (r: Vec<char>)
    requires
        from <= s@.len(),
    ensures
        r@ == if trim {
            trim_quotes(s@.skip(from as int))
        } else {
            s@.skip(from as int)
        },
{
    let mut lo = from;
    let mut hi = s.len();
    if trim {
        while lo < hi && s[lo] == '"'
            invariant
                from <= lo <= hi == s@.len(),
                strip_leading_quotes(s@.skip(from as int)) == strip_leading_quotes(s@.skip(lo as int)),
            decreases hi - lo,
        {
            assert(s@.skip(lo as int).drop_first() =~= s@.skip(lo + 1));
            lo = lo + 1;
        }
        assert(strip_leading_quotes(s@.skip(lo as int)) == s@.skip(lo as int));
        while hi > lo && s[hi - 1] == '"'
            invariant
                lo <= hi <= s@.len(),
                trim_quotes(s@.skip(from as int)) == strip_trailing_quotes(s@.subrange(lo as int, hi as int)),
            decreases hi - lo,
        {
            assert(s@.subrange(lo as int, hi as int).drop_last() =~= s@.subrange(lo as int, hi - 1));
            hi = hi - 1;
        }
        assert(trim_quotes(s@.skip(from as int)) == s@.subrange(lo as int, hi as int));
    }
    let mut out: Vec<char> = Vec::new();
    let mut i = lo;
    while i < hi
        invariant
            lo <= i <= hi <= s@.len(),
            out@ == s@.subrange(lo as int, i as int),
        decreases hi - i,
    {
        out.push(s[i]);
        assert(out@ =~= s@.subrange(lo as int, i + 1));
        i = i + 1;
    }
    assert(s@.skip(from as int) =~= s@.subrange(from as int, s@.len() as int));
    out
}

/// The characters of an ASCII word.
fn word(w: &str) -> (r: Vec<char>)
    ensures
        r@ == w@,
{
    chars_of(w)
}

/// The cookies `sp_t`, `sp_dc` and `sp_key` that the configuration text `content` sets.
pub fn read_config(content: &str) -> (r: (String, String, String))
    ensures
        (r.0@, r.1@, r.2@) == config_values(lines_from(content@, 0)),
{
    let cs = chars_of(content);
    let lines = split_lines(cs.as_slice());
    let ghost ls = lines@.map_values(|l: Vec<char>| l@);
    let p_t = word("sp_t=");
    let p_dc = word("sp_dc=");
    let p_key = word("sp_key=");
    let mut t: Vec<char> = Vec::new();
    let mut d: Vec<char> = Vec::new();
    let mut k: Vec<char> = Vec::new();
    let mut i: usize = 0;
    proof {
        reveal_strlit("sp_t=");
        reveal_strlit("sp_dc=");
        reveal_strlit("sp_key=");
        assert(ls.take(0) =~= Seq::<Seq<char>>::empty());
    }
    while i < lines.len()
        invariant
            i <= lines@.len(),
            ls == lines@.map_values(|l: Vec<char>| l@),
            p_t@ == "sp_t="@,
            p_dc@ == "sp_dc="@,
            p_key@ == "sp_key="@,
            p_t@.len() == 5,
            p_dc@.len() == 6,
            p_key@.len() == 7,
            (t@, d@, k@) == config_values(ls.take(i as int)),
        decreases lines@.len() - i,
    {
        let l = &lines[i];
        assert(ls.take(i + 1).drop_last() =~= ls.take(i as int));
        assert(ls.take(i + 1).last() == l@);
        if has_prefix(l.as_slice(), p_t.as_slice()) {
            t = tail_of(l.as_slice(), 5, true);
        } else if has_prefix(l.as_slice(), p_dc.as_slice()) {
            d = tail_of(l.as_slice(), 6, false);
        } else if has_prefix(l.as_slice(), p_key.as_slice()) {
            k = tail_of(l.as_slice(), 7, false);
        }
        i = i + 1;
    }
    assert(ls.take(lines@.len() as int) =~= ls);
    (string_of(t.as_slice()), string_of(d.as_slice()), string_of(k.as_slice()))
}

/// The track id and the file id of a key request `track*file`: the text before the first `*`
/// and the text between it and the next `*` (or the end). `None` where there is no `*`.
pub open spec fn track_and_file(s: Seq<char>) -> Option<(Seq<char>, Seq<char>)> {
    match find_from(s, '*', 0) {
        None => None,
        Some(i) => match find_from(s, '*', i + 1) {
            None => Some((s.subrange(0, i), s.subrange(i + 1, s.len() as int))),
            Some(j) => Some((s.subrange(0, i), s.subrange(i + 1, j))),
        },
    }
}

/// The index of the first `c` in `cs` from `from` on.
fn find_char(cs: &[char], c: char, from: usize) -> (r: Option<usize>)
    requires
        from <= cs@.len(),
    ensures
        match r {
            Some(i) => find_from(cs@, c, from as int) == Some(i as int),
            None => find_from(cs@, c, from as int) is None,
        },
{
    proof {
        lemma_find_from(cs@, c, from as int);
    }
    let mut i = from;
    while i < cs.len()
        invariant
            from <= i <= cs@.len(),
            forall|j: int| from <= j < i ==> cs@[j] != c,
        decreases cs@.len() - i,
    {
        if cs[i] == c {
            proof {
                lemma_find_from(cs@, c, from as int);
                match find_from(cs@, c, from as int) {
                    Some(k) => {
                        if k < i {
                            assert(cs@[k] != c);
                        } else if k > i {
                            assert(cs@[i as int] != c);
                        }
                    },
                    None => {
                        assert(cs@[i as int] != c);
                    },
                }
            }
            return Some(i);
        }
        i = i + 1;
    }
    proof {
        lemma_find_from(cs@, c, from as int);
        match find_from(cs@, c, from as int) {
            Some(k) => {
                assert(cs@[k] != c);
            },
            None => {},
        }
    }
    None
}

/// The track id and the file id of the key request `s`, split at `*`.
pub fn split_track_file(s: &str) -> (r: Option<(String, String)>)
    ensures
        match track_and_file(s@) {
            None => r is None,
            Some((a, b)) => r matches Some((x, y)) && x@ == a && y@ == b,
        },
{
    let cs = chars_of(s);
    proof {
        lemma_find_from(cs@, '*', 0);
    }
    let i = match find_char(cs.as_slice(), '*', 0) {
        Some(i) => i,
        None => return None,
    };
    let end = match find_char(cs.as_slice(), '*', i + 1) {
        Some(j) => j,
        None => cs.len(),
    };
    proof {
        lemma_find_from(cs@, '*', i + 1);
    }
    let a = string_of(vstd::slice::slice_subrange(cs.as_slice(), 0, i));
    let b = string_of(vstd::slice::slice_subrange(cs.as_slice(), i + 1, end));
    Some((a, b))
}

/// Whether an access token that expires at `expires_ms` (milliseconds since the epoch) must be
/// renewed at `now_ms`: from the moment of its expiry on.
pub fn token_expired(now_ms: i64, expires_ms: i64) -> (r: bool)
    ensures
        r == (now_ms >= expires_ms),
{
    now_ms >= expires_ms
}

} // verus!
